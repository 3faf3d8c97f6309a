//! Routes every unrouted net of a board and commits the result.

use vstd::prelude::*;

use crate::detail::grid::{first_pos, lemma_first_pos_stable, layer_index_of, offset_ok};
use crate::detail::obstacle::{lemma_obstacles_ok, obstacles_from_board, shape_ok, spec_obstacles, spec_shape_clears, Obstacle};
use crate::geom::point::{coord_in_range, Point};
use crate::global::pathfinder::{
    g_in_bounds, g_index, g_layers, g_move, g_size, negotiate, negotiation_rounds, paths_answer, spec_gcell_of,
    valid_gpath, GCell, GlobalGrid, NetRequest,
};
use crate::model::board::Board;
use crate::global::steiner::{joined_by, minimum_spanning_tree, tree_edges, tree_order};
use crate::model::connection::{
    attempted_nets, lemma_attempted_nets_distinct, connections_upto, endpoints_view, multi_pin_upto, net_endpoints, pad_nets, spec_connections, spec_multi_pin_nets,
    Connection, ConnectionReport, Endpoint,
};
use crate::detail::router::{layer_ids, route_connection, route_setup, routed_in_range, routes_to, unroutable};
use crate::geom::segment::Segment;
use crate::model::board::{class_of, dim_ok};
use crate::model::items::{Layer, LayerId, NetClass, NetId, Pad, Track, TrackId, Via, ViaId};

verus! {

/// Global-grid cell size: 1 mm, an order of magnitude coarser than the
/// detail grid.
pub const GLOBAL_CELL_NM: i64 = 1_000_000;

/// Margin around the bounding box of every connection's endpoints when
/// sizing the global grid; larger than the detail router's own margin so
/// global waypoints can widen a connection's search window.
pub const GLOBAL_MARGIN_NM: i64 = 5_000_000;

pub const MAX_NEGOTIATION_ITERATIONS: usize = 20;

/// The point at the centre of global cell `c`.
pub open spec fn gpoint(g: &GlobalGrid, c: GCell) -> Point {
    Point { x: (g.origin.x + c.x * g.cell_size_nm) as i64, y: (g.origin.y + c.y * g.cell_size_nm) as i64 }
}

/// No two consecutive points are equal.
pub open spec fn no_repeats(v: Seq<Point>) -> bool {
    forall|i: int| 0 <= i < v.len() - 1 ==> #[trigger] v[i] != v[i + 1]
}

/// `points` without consecutive duplicates (a layer change in a global
/// path repeats its point).
pub open spec fn spec_dedup(points: Seq<Point>) -> Seq<Point>
    decreases points.len(),
{
    if points.len() == 0 {
        Seq::empty()
    } else {
        let prev = spec_dedup(points.drop_last());
        if prev.len() > 0 && prev.last() == points.last() {
            prev
        } else {
            prev.push(points.last())
        }
    }
}

/// Collapses consecutive duplicate points.
fn dedup_points(points: &Vec<Point>) -> (r: Vec<Point>)
    ensures
        r@ == spec_dedup(points@),
{
    let mut result: Vec<Point> = Vec::new();
    let mut i: usize = 0;
    while i < points.len()
        invariant
            i <= points@.len(),
            result@ == spec_dedup(points@.subrange(0, i as int)),
        decreases points@.len() - i,
    {
        let p = points[i];
        proof {
            assert(points@.subrange(0, i + 1).drop_last() =~= points@.subrange(0, i as int));
        }
        let n = result.len();
        if n == 0 || result[n - 1] != p {
            result.push(p);
        }
        i += 1;
    }
    proof {
        assert(points@.subrange(0, points@.len() as int) =~= points@);
    }
    result
}

proof fn lemma_dedup_props(points: Seq<Point>)
    ensures
        no_repeats(spec_dedup(points)),
        (forall|i: int| 0 <= i < points.len() ==> (#[trigger] points[i]).in_range()) ==> forall|i: int|
            0 <= i < spec_dedup(points).len() ==> (#[trigger] spec_dedup(points)[i]).in_range(),
    decreases points.len(),
{
    if points.len() > 0 {
        lemma_dedup_props(points.drop_last());
        if forall|i: int| 0 <= i < points.len() ==> (#[trigger] points[i]).in_range() {
            assert forall|i: int| 0 <= i < points.drop_last().len() implies (#[trigger] points.drop_last()[i]).in_range() by {
                assert(points.drop_last()[i] == points[i]);
            }
        }
    }
}

/// The first and last of the board's layer ids by number, `(0, 0)` for a
/// board without layers: every via spans the full copper stack.
pub open spec fn spec_full_span(layers: Seq<Layer>) -> (LayerId, LayerId)
    decreases layers.len(),
{
    if layers.len() == 0 {
        (LayerId(0), LayerId(0))
    } else if layers.len() == 1 {
        (layers[0].id, layers[0].id)
    } else {
        let (lo, hi) = spec_full_span(layers.drop_last());
        let l = layers.last().id;
        (if l.0 < lo.0 { l } else { lo }, if l.0 >= hi.0 { l } else { hi })
    }
}

/// The span of a through via is the board's lowest-numbered layer to its
/// highest-numbered layer: no layer lies outside it, and both ends are
/// layers of the board.
pub proof fn lemma_full_span_extremes(layers: Seq<Layer>)
    requires
        layers.len() > 0,
    ensures
        forall|i: int|
            0 <= i < layers.len() ==> spec_full_span(layers).0 .0 <= (#[trigger] layers[i]).id.0 <= spec_full_span(
                layers,
            ).1 .0,
        exists|i: int| 0 <= i < layers.len() && (#[trigger] layers[i]).id == spec_full_span(layers).0,
        exists|i: int| 0 <= i < layers.len() && (#[trigger] layers[i]).id == spec_full_span(layers).1,
    decreases layers.len(),
{
    if layers.len() > 1 {
        let prev = layers.drop_last();
        lemma_full_span_extremes(prev);
        let (lo, hi) = spec_full_span(prev);
        let l = layers.last().id;
        assert forall|i: int| 0 <= i < layers.len() implies spec_full_span(layers).0 .0 <= (#[trigger] layers[i]).id.0
            <= spec_full_span(layers).1 .0 by {
            if i < prev.len() {
                assert(layers[i] == prev[i]);
            }
        }
        if l.0 < lo.0 {
            assert(layers[layers.len() - 1].id == spec_full_span(layers).0);
        } else {
            let i = choose|i: int| 0 <= i < prev.len() && (#[trigger] prev[i]).id == lo;
            assert(layers[i] == prev[i]);
        }
        if l.0 >= hi.0 {
            assert(layers[layers.len() - 1].id == spec_full_span(layers).1);
        } else {
            let i = choose|i: int| 0 <= i < prev.len() && (#[trigger] prev[i]).id == hi;
            assert(layers[i] == prev[i]);
        }
    } else {
        assert(layers[0].id == spec_full_span(layers).0);
    }
}

/// Every via a routing pass appends (`extends` with the board's span, as
/// `route_board` ensures) reaches from the board's lowest-numbered copper
/// layer to its highest-numbered one, both of them layers of the board.
pub proof fn lemma_new_vias_span_the_stack(before: &Board, after: &Board, t0: u32, v0: u32)
    requires
        extends(before, after, t0, v0, spec_full_span(before.layers@)),
        before.layers@.len() > 0,
    ensures
        forall|j: int, i: int|
            before.vias@.len() <= j < after.vias@.len() && 0 <= i < before.layers@.len() ==> (#[trigger] after.vias@[j]).from_layer.0
                <= (#[trigger] before.layers@[i]).id.0 <= after.vias@[j].to_layer.0,
        forall|j: int|
            before.vias@.len() <= j < after.vias@.len() ==> (exists|i: int|
                0 <= i < before.layers@.len() && (#[trigger] before.layers@[i]).id == (#[trigger] after.vias@[j]).from_layer)
                && (exists|i: int| 0 <= i < before.layers@.len() && (#[trigger] before.layers@[i]).id == after.vias@[j].to_layer),
{
    lemma_full_span_extremes(before.layers@);
    let span = spec_full_span(before.layers@);
    assert forall|j: int, i: int|
        before.vias@.len() <= j < after.vias@.len() && 0 <= i < before.layers@.len() implies (#[trigger] after.vias@[j]).from_layer.0
            <= (#[trigger] before.layers@[i]).id.0 <= after.vias@[j].to_layer.0 by {
        assert(after.vias@[j].from_layer == span.0 && after.vias@[j].to_layer == span.1);
    }
    assert forall|j: int| before.vias@.len() <= j < after.vias@.len() implies (exists|i: int|
        0 <= i < before.layers@.len() && (#[trigger] before.layers@[i]).id == (#[trigger] after.vias@[j]).from_layer) && (exists|i: int|
        0 <= i < before.layers@.len() && (#[trigger] before.layers@[i]).id == after.vias@[j].to_layer) by {
        assert(after.vias@[j].from_layer == span.0 && after.vias@[j].to_layer == span.1);
        let a = choose|i: int| 0 <= i < before.layers@.len() && (#[trigger] before.layers@[i]).id == span.0;
        let b = choose|i: int| 0 <= i < before.layers@.len() && (#[trigger] before.layers@[i]).id == span.1;
        assert(before.layers@[a].id == after.vias@[j].from_layer);
        assert(before.layers@[b].id == after.vias@[j].to_layer);
    }
}

fn full_layer_span(board: &Board) -> (r: (LayerId, LayerId))
    ensures
        r == spec_full_span(board.layers@),
{
    let n = board.layers.len();
    if n == 0 {
        return (LayerId(0), LayerId(0));
    }
    let mut lo = board.layers[0].id;
    let mut hi = board.layers[0].id;
    let mut i: usize = 1;
    while i < n
        invariant
            1 <= i <= n,
            n == board.layers@.len(),
            (lo, hi) == spec_full_span(board.layers@.subrange(0, i as int)),
        decreases n - i,
    {
        let l = board.layers[i].id;
        proof {
            assert(board.layers@.subrange(0, i + 1).drop_last() =~= board.layers@.subrange(0, i as int));
        }
        if l.0 < lo.0 {
            lo = l;
        }
        if l.0 >= hi.0 {
            hi = l;
        }
        i += 1;
    }
    proof {
        assert(board.layers@.subrange(0, n as int) =~= board.layers@);
    }
    (lo, hi)
}

fn contains_net(v: &Vec<NetId>, net: NetId) -> (r: bool)
    ensures
        r == v@.contains(net),
{
    let mut i: usize = 0;
    while i < v.len()
        invariant
            i <= v@.len(),
            forall|j: int| 0 <= j < i ==> v@[j] != net,
        decreases v@.len() - i,
    {
        if v[i] == net {
            assert(v@[i as int] == net);
            return true;
        }
        i += 1;
    }
    false
}

/// The centre of `c` lies inside the copper of obstacle `o`, which is on
/// `c`'s layer and on a net not being negotiated.
pub open spec fn covers(
    o: Obstacle,
    g: &GlobalGrid,
    layers: Seq<LayerId>,
    active: Seq<NetId>,
    c: GCell,
) -> bool {
    &&& !active.contains(o.net)
    &&& layer_index_of(layers, o.layer) == Some(c.layer as int)
    &&& gpoint(g, c).in_range()
    &&& !spec_shape_clears(o.shape, gpoint(g, c), 0)
}

/// The capacity fixed copper consumes at `c`: the layer's whole capacity
/// where some obstacle covers the cell's centre, else none.
pub open spec fn spec_obstruction(
    obs: Seq<Obstacle>,
    g: &GlobalGrid,
    layers: Seq<LayerId>,
    active: Seq<NetId>,
    c: GCell,
) -> i64 {
    let cap = g.layer_capacity@[c.layer as int];
    if cap > 0 && exists|k: int| 0 <= k < obs.len() && covers(#[trigger] obs[k], g, layers, active, c) {
        cap
    } else {
        0
    }
}

/// Whether any obstacle covers `c`.
fn cell_covered(
    obstacles: &Vec<Obstacle>,
    g: &GlobalGrid,
    layers: &Vec<LayerId>,
    active: &Vec<NetId>,
    c: GCell,
) -> (r: bool)
    requires
        forall|k: int| 0 <= k < obstacles@.len() ==> shape_ok(#[trigger] obstacles@[k].shape),
        -2_000_000_000 <= g.origin.x <= 2_000_000_000,
        -2_000_000_000 <= g.origin.y <= 2_000_000_000,
        0 < g.cell_size_nm <= 1_000_000_000,
        0 <= c.x,
        0 <= c.y,
    ensures
        r == exists|k: int| 0 <= k < obstacles@.len() && covers(#[trigger] obstacles@[k], g, layers@, active@, c),
{
    proof {
        assert(c.x * g.cell_size_nm <= 2_147_483_647_000_000_000) by (nonlinear_arith)
            requires
                0 <= c.x <= 2_147_483_647,
                0 < g.cell_size_nm <= 1_000_000_000,
        ;
        assert(c.y * g.cell_size_nm <= 2_147_483_647_000_000_000) by (nonlinear_arith)
            requires
                0 <= c.y <= 2_147_483_647,
                0 < g.cell_size_nm <= 1_000_000_000,
        ;
        assert(c.x * g.cell_size_nm >= 0) by (nonlinear_arith)
            requires
                0 <= c.x,
                0 < g.cell_size_nm,
        ;
        assert(c.y * g.cell_size_nm >= 0) by (nonlinear_arith)
            requires
                0 <= c.y,
                0 < g.cell_size_nm,
        ;
    }
    let point = g.point_of(c);
    let in_range = point.x >= -1_000_000_000 && point.x <= 1_000_000_000 && point.y >= -1_000_000_000
        && point.y <= 1_000_000_000;
    let mut k: usize = 0;
    while k < obstacles.len()
        invariant
            k <= obstacles@.len(),
            point == gpoint(g, c),
            in_range == point.in_range(),
            forall|j: int| 0 <= j < obstacles@.len() ==> shape_ok(#[trigger] obstacles@[j].shape),
            forall|j: int| 0 <= j < k ==> !covers(#[trigger] obstacles@[j], g, layers@, active@, c),
        decreases obstacles@.len() - k,
    {
        let o = obstacles[k];
        if in_range && !contains_net(active, o.net) {
            let mut li: usize = 0;
            while li < layers.len() && layers[li] != o.layer
                invariant
                    li <= layers@.len(),
                    first_pos(layers@, o.layer, li as int).is_none(),
                decreases layers@.len() - li,
            {
                li += 1;
            }
            proof {
                if li < layers@.len() {
                    assert(first_pos(layers@, o.layer, li + 1) == Some(li as int));
                    lemma_first_pos_stable(layers@, o.layer, li + 1, layers@.len() as int);
                }
            }
            if li < layers.len() && li == c.layer {
                if !o.shape.clears_point(point, 0) {
                    assert(covers(obstacles@[k as int], g, layers@, active@, c));
                    return true;
                }
            }
        }
        k += 1;
    }
    false
}

/// Rasterizes the fixed copper of `board` (tracks, vias, pads) onto `g`:
/// a cell whose centre lies inside the copper of an obstacle on a net not
/// in `active` has its layer's whole capacity consumed; every other cell
/// none. The result is indexed like `GlobalGrid::cell_index`. Copper of the
/// nets being negotiated is skipped, or their own pins would obstruct
/// their own start cells.
pub fn obstruction_from_board(
    board: &Board,
    g: &GlobalGrid,
    layers: &Vec<LayerId>,
    active: &Vec<NetId>,
) -> (r: Vec<i64>)
    requires
        board.geometry_valid(),
        layers@.len() == g_layers(g),
        -2_000_000_000 <= g.origin.x <= 2_000_000_000,
        -2_000_000_000 <= g.origin.y <= 2_000_000_000,
        0 < g.cell_size_nm <= 1_000_000_000,
        g_size(g) <= usize::MAX,
    ensures
        r@.len() == g_size(g),
        forall|c: GCell| g_in_bounds(g, c) ==> #[trigger] r@[crate::global::pathfinder::g_index(g, c)]
            == spec_obstruction(spec_obstacles(board), g, layers@, active@, c),
{
    let obstacles = obstacles_from_board(board);
    proof {
        lemma_obstacles_ok(board);
    }
    let mut out: Vec<i64> = Vec::new();
    if g.width <= 0 || g.height <= 0 {
        proof {
            assert(g_size(g) == 0) by (nonlinear_arith)
                requires
                    g.width <= 0 || g.height <= 0,
                    g_size(g) == (if g.width > 0 { g.width as int } else { 0 }) * (if g.height > 0 { g.height as int } else { 0 }) * g_layers(g),
            {
            }
        }
        return out;
    }
    let w = g.width;
    let h = g.height;
    let nl = g.layer_capacity.len();
    let ghost gw = w as int;
    let ghost gl = nl as int;
    proof {
        assert(0 * gw * gl == 0) by (nonlinear_arith);
    }
    let mut y: i32 = 0;
    while y < h
        invariant
            0 <= y <= h,
            h == g.height,
            w == g.width,
            w > 0,
            nl == g_layers(g),
            layers@.len() == nl,
            gw == w,
            gl == nl,
            -2_000_000_000 <= g.origin.x <= 2_000_000_000,
            -2_000_000_000 <= g.origin.y <= 2_000_000_000,
            0 < g.cell_size_nm <= 1_000_000_000,
            g_size(g) <= usize::MAX,
            obstacles@ == spec_obstacles(board),
            forall|k: int| 0 <= k < obstacles@.len() ==> shape_ok(#[trigger] obstacles@[k].shape),
            out@.len() == y * gw * gl,
            forall|c: GCell|
                g_in_bounds(g, c) && crate::global::pathfinder::g_index(g, c) < out@.len() ==> #[trigger] out@[crate::global::pathfinder::g_index(g, c)]
                    == spec_obstruction(spec_obstacles(board), g, layers@, active@, c),
        decreases h - y,
    {
        let mut x: i32 = 0;
        while x < w
            invariant
                0 <= y < h,
                0 <= x <= w,
                h == g.height,
                w == g.width,
                nl == g_layers(g),
                layers@.len() == nl,
                gw == w,
                gl == nl,
                -2_000_000_000 <= g.origin.x <= 2_000_000_000,
                -2_000_000_000 <= g.origin.y <= 2_000_000_000,
                0 < g.cell_size_nm <= 1_000_000_000,
                g_size(g) <= usize::MAX,
                obstacles@ == spec_obstacles(board),
                forall|k: int| 0 <= k < obstacles@.len() ==> shape_ok(#[trigger] obstacles@[k].shape),
                out@.len() == (y * gw + x) * gl,
                forall|c: GCell|
                    g_in_bounds(g, c) && crate::global::pathfinder::g_index(g, c) < out@.len() ==> #[trigger] out@[crate::global::pathfinder::g_index(g, c)]
                        == spec_obstruction(spec_obstacles(board), g, layers@, active@, c),
            decreases w - x,
        {
            let mut l: usize = 0;
            while l < nl
                invariant
                    0 <= y < h,
                    0 <= x < w,
                    l <= nl,
                    h == g.height,
                    w == g.width,
                    nl == g_layers(g),
                    layers@.len() == nl,
                    gw == w,
                    gl == nl,
                    -2_000_000_000 <= g.origin.x <= 2_000_000_000,
                    -2_000_000_000 <= g.origin.y <= 2_000_000_000,
                    0 < g.cell_size_nm <= 1_000_000_000,
                    g_size(g) <= usize::MAX,
                    obstacles@ == spec_obstacles(board),
                    forall|k: int| 0 <= k < obstacles@.len() ==> shape_ok(#[trigger] obstacles@[k].shape),
                    out@.len() == (y * gw + x) * gl + l,
                    forall|c: GCell|
                        g_in_bounds(g, c) && crate::global::pathfinder::g_index(g, c) < out@.len() ==> #[trigger] out@[crate::global::pathfinder::g_index(g, c)]
                            == spec_obstruction(spec_obstacles(board), g, layers@, active@, c),
                decreases nl - l,
            {
                let c = GCell { x, y, layer: l };
                let cap = g.layer_capacity[l];
                let value: i64 = if cap > 0 && cell_covered(&obstacles, g, layers, active, c) {
                    cap
                } else {
                    0
                };
                let ghost o0 = out@;
                out.push(value);
                proof {
                    assert(crate::global::pathfinder::g_index(g, c) == o0.len());
                    assert forall|d: GCell|
                        g_in_bounds(g, d) && crate::global::pathfinder::g_index(g, d) < out@.len() implies #[trigger] out@[crate::global::pathfinder::g_index(g, d)]
                            == spec_obstruction(spec_obstacles(board), g, layers@, active@, d) by {
                        crate::global::pathfinder::lemma_g_index(g, d, c);
                        if crate::global::pathfinder::g_index(g, d) < o0.len() {
                            assert(out@[crate::global::pathfinder::g_index(g, d)] == o0[crate::global::pathfinder::g_index(g, d)]);
                        }
                    }
                }
                l += 1;
            }
            proof {
                assert((y * gw + x) * gl + gl == (y * gw + x + 1) * gl) by (nonlinear_arith);
            }
            x += 1;
        }
        proof {
            assert((y * gw + gw) * gl == (y + 1) * gw * gl) by (nonlinear_arith);
        }
        y += 1;
    }
    proof {
        assert(g_size(g) == (h as int) * gw * gl) by (nonlinear_arith)
            requires
                g_size(g) == (if g.width > 0 { g.width as int } else { 0 }) * (if g.height > 0 { g.height as int } else { 0 }) * g_layers(g),
                g.width > 0,
                g.height > 0,
                gw == g.width,
                gl == g_layers(g),
                h == g.height,
        ;
        assert forall|c: GCell| g_in_bounds(g, c) implies #[trigger] out@[crate::global::pathfinder::g_index(g, c)]
            == spec_obstruction(spec_obstacles(board), g, layers@, active@, c) by {
            crate::global::pathfinder::lemma_g_index(g, c, c);
        }
    }
    out
}

/// The global cell of an endpoint at `pos` on each of its layers the grid
/// covers, in the endpoint's layer order.
pub open spec fn endpoint_cells_upto(
    g: &GlobalGrid,
    all: Seq<LayerId>,
    eps: Seq<LayerId>,
    pos: Point,
    k: int,
) -> Seq<GCell>
    decreases k,
{
    if k <= 0 {
        Seq::empty()
    } else {
        let prev = endpoint_cells_upto(g, all, eps, pos, k - 1);
        match layer_index_of(all, eps[k - 1]) {
            Some(i) => prev.push(spec_gcell_of(g, pos, i as usize)),
            None => prev,
        }
    }
}

/// The coarse cells of an endpoint are its position's cell on exactly the
/// board layers it lists: each cell's layer index names one of its
/// layers, and each of its layers the board has gets a cell.
pub proof fn lemma_endpoint_cells_layers(g: &GlobalGrid, all: Seq<LayerId>, eps: Seq<LayerId>, pos: Point, k: int)
    requires
        0 <= k <= eps.len(),
        all.len() <= usize::MAX,
    ensures
        forall|q: int|
            0 <= q < endpoint_cells_upto(g, all, eps, pos, k).len() ==> {
                let c = #[trigger] endpoint_cells_upto(g, all, eps, pos, k)[q];
                &&& 0 <= c.layer < all.len()
                &&& eps.subrange(0, k).contains(all[c.layer as int])
                &&& c == spec_gcell_of(g, pos, c.layer)
            },
        forall|m: int|
            0 <= m < k && all.contains(#[trigger] eps[m]) ==> exists|q: int|
                0 <= q < endpoint_cells_upto(g, all, eps, pos, k).len() && all[(#[trigger] endpoint_cells_upto(
                    g,
                    all,
                    eps,
                    pos,
                    k,
                )[q]).layer as int] == eps[m],
    decreases k,
{
    if k > 0 {
        lemma_endpoint_cells_layers(g, all, eps, pos, k - 1);
        crate::detail::grid::lemma_layer_index_of(all, eps[k - 1]);
        let prev = endpoint_cells_upto(g, all, eps, pos, k - 1);
        let cur = endpoint_cells_upto(g, all, eps, pos, k);
        assert forall|q: int| 0 <= q < cur.len() implies {
            let c = #[trigger] cur[q];
            &&& 0 <= c.layer < all.len()
            &&& eps.subrange(0, k).contains(all[c.layer as int])
            &&& c == spec_gcell_of(g, pos, c.layer)
        } by {
            if q < prev.len() {
                assert(cur[q] == prev[q]);
                let w = all[cur[q].layer as int];
                assert(eps.subrange(0, k - 1).contains(w));
                let x = choose|x: int| 0 <= x < eps.subrange(0, k - 1).len() && #[trigger] eps.subrange(0, k - 1)[x] == w;
                assert(eps.subrange(0, k)[x] == w);
            } else {
                let i = layer_index_of(all, eps[k - 1])->0;
                assert(cur[q] == spec_gcell_of(g, pos, i as usize));
                assert(cur[q].layer == i);
                assert(eps.subrange(0, k)[k - 1] == eps[k - 1]);
            }
        }
        assert forall|m: int| 0 <= m < k && all.contains(#[trigger] eps[m]) implies exists|q: int|
            0 <= q < cur.len() && all[(#[trigger] cur[q]).layer as int] == eps[m] by {
            if m < k - 1 {
                let q = choose|q: int| 0 <= q < prev.len() && all[(#[trigger] prev[q]).layer as int] == eps[m];
                assert(cur[q] == prev[q]);
            } else {
                let i = layer_index_of(all, eps[k - 1])->0;
                assert(cur[prev.len() as int] == spec_gcell_of(g, pos, i as usize));
                assert(cur[prev.len() as int].layer as int == i);
            }
        }
    }
}

fn endpoint_cells(
    g: &GlobalGrid,
    all_layers: &Vec<LayerId>,
    endpoint_layers: &Vec<LayerId>,
    position: Point,
) -> (r: Vec<GCell>)
    requires
        g.cell_size_nm > 0,
        offset_ok(position.x - g.origin.x),
        offset_ok(position.y - g.origin.y),
    ensures
        r@ == endpoint_cells_upto(g, all_layers@, endpoint_layers@, position, endpoint_layers@.len() as int),
{
    let mut cells: Vec<GCell> = Vec::new();
    let mut k: usize = 0;
    while k < endpoint_layers.len()
        invariant
            k <= endpoint_layers@.len(),
            g.cell_size_nm > 0,
            offset_ok(position.x - g.origin.x),
            offset_ok(position.y - g.origin.y),
            cells@ == endpoint_cells_upto(g, all_layers@, endpoint_layers@, position, k as int),
        decreases endpoint_layers@.len() - k,
    {
        let layer = endpoint_layers[k];
        let mut j: usize = 0;
        while j < all_layers.len() && all_layers[j] != layer
            invariant
                j <= all_layers@.len(),
                first_pos(all_layers@, layer, j as int).is_none(),
            decreases all_layers@.len() - j,
        {
            j += 1;
        }
        proof {
            if j < all_layers@.len() {
                assert(first_pos(all_layers@, layer, j + 1) == Some(j as int));
                lemma_first_pos_stable(all_layers@, layer, j + 1, all_layers@.len() as int);
            }
        }
        if j < all_layers.len() {
            cells.push(g.cell_of(position, j));
        }
        k += 1;
    }
    cells
}

proof fn lemma_gpath_in_bounds(g: &GlobalGrid, starts: Seq<GCell>, goals: Seq<GCell>, p: Seq<GCell>, i: int)
    requires
        valid_gpath(g, starts, goals, p),
        0 <= i < p.len(),
    ensures
        g_in_bounds(g, p[i]),
    decreases i,
{
    if i > 0 {
        lemma_gpath_in_bounds(g, starts, goals, p, i - 1);
        assert(g_move(g, p[i - 1], p[i]));
    }
}

/// Every waypoint list is in range and free of consecutive repeats.
pub open spec fn waypoints_ok(w: Seq<Vec<Point>>) -> bool {
    forall|i: int| 0 <= i < w.len() ==> {
        &&& no_repeats((#[trigger] w[i])@)
        &&& forall|j: int| 0 <= j < w[i]@.len() ==> (#[trigger] w[i]@[j]).in_range()
    }
}

/// A point's coordinate along the x axis (`xaxis`) or the y axis.
pub open spec fn axis_of(p: Point, xaxis: bool) -> int {
    if xaxis {
        p.x as int
    } else {
        p.y as int
    }
}

/// The least coordinate along an axis over the endpoints of the first `k`
/// connections (the first connection's start where `k` is 0).
pub open spec fn conn_lo(cs: Seq<Connection>, xaxis: bool, k: int) -> int
    decreases k,
{
    if k <= 0 {
        axis_of(cs[0].from.position, xaxis)
    } else {
        let m = conn_lo(cs, xaxis, k - 1);
        let a = axis_of(cs[k - 1].from.position, xaxis);
        let b = axis_of(cs[k - 1].to.position, xaxis);
        let m1 = if a < m { a } else { m };
        if b < m1 { b } else { m1 }
    }
}

/// The greatest coordinate along an axis over the endpoints of the first
/// `k` connections (the first connection's start where `k` is 0).
pub open spec fn conn_hi(cs: Seq<Connection>, xaxis: bool, k: int) -> int
    decreases k,
{
    if k <= 0 {
        axis_of(cs[0].from.position, xaxis)
    } else {
        let m = conn_hi(cs, xaxis, k - 1);
        let a = axis_of(cs[k - 1].from.position, xaxis);
        let b = axis_of(cs[k - 1].to.position, xaxis);
        let m1 = if a > m { a } else { m };
        if b > m1 { b } else { m1 }
    }
}

/// The coarse grid's low edge along an axis: the endpoints' bounding box
/// less the margin.
pub open spec fn coarse_lo(cs: Seq<Connection>, xaxis: bool) -> int {
    conn_lo(cs, xaxis, cs.len() as int) - GLOBAL_MARGIN_NM
}

/// The coarse grid's high edge along an axis: the endpoints' bounding box
/// plus the margin.
pub open spec fn coarse_hi(cs: Seq<Connection>, xaxis: bool) -> int {
    conn_hi(cs, xaxis, cs.len() as int) + GLOBAL_MARGIN_NM
}

/// The number of coarse cells along an axis.
pub open spec fn coarse_count(cs: Seq<Connection>, xaxis: bool) -> int {
    (coarse_hi(cs, xaxis) - coarse_lo(cs, xaxis)) / (GLOBAL_CELL_NM as int) + 1
}

/// There is something to negotiate and the coarse grid fits: within the
/// coordinate range, with a cell count (times two per cell, for the edge
/// slots) that fits in `usize`.
pub open spec fn coarse_ok(board: &Board, cs: Seq<Connection>) -> bool {
    &&& cs.len() > 0
    &&& board.layers@.len() > 0
    &&& -1_000_000_000 <= coarse_lo(cs, true)
    &&& -1_000_000_000 <= coarse_lo(cs, false)
    &&& coarse_hi(cs, true) <= 1_000_000_000
    &&& coarse_hi(cs, false) <= 1_000_000_000
    &&& coarse_count(cs, true) * coarse_count(cs, false) * board.layers@.len() * 2 <= usize::MAX
}

/// `g` has the shape of the coarse grid over `cs`: its origin at the low
/// edges, 1 mm cells, the cell counts above, one layer per board layer.
pub open spec fn coarse_shape(g: &GlobalGrid, board: &Board, cs: Seq<Connection>) -> bool {
    &&& g.origin.x == coarse_lo(cs, true)
    &&& g.origin.y == coarse_lo(cs, false)
    &&& g.cell_size_nm == GLOBAL_CELL_NM
    &&& g.width == coarse_count(cs, true)
    &&& g.height == coarse_count(cs, false)
    &&& g_layers(g) == board.layers@.len()
}

/// The coarse cells of an endpoint: its nearest cell on each of its layers
/// that the board has.
pub open spec fn coarse_cells(g: &GlobalGrid, board: &Board, e: Endpoint) -> Seq<GCell> {
    endpoint_cells_upto(g, layer_ids(board.layers@), e.layers@, e.position, e.layers@.len() as int)
}

/// `w` answers connection `c` on `g`: empty exactly where no path of the
/// grid leads from a cell of its start to a cell of its end, else the
/// cell centres of such a path with repeats collapsed.
pub open spec fn coarse_answer(g: &GlobalGrid, board: &Board, c: Connection, w: Seq<Point>) -> bool {
    let starts = coarse_cells(g, board, c.from);
    let goals = coarse_cells(g, board, c.to);
    if w.len() == 0 {
        forall|q: Seq<GCell>| !valid_gpath(g, starts, goals, q)
    } else {
        exists|p: Seq<GCell>|
            #[trigger] valid_gpath(g, starts, goals, p) && w == spec_dedup(p.map_values(|c: GCell| gpoint(g, c)))
    }
}

/// The largest track width plus clearance over the first `k` net classes
/// (1 mm where there are none).
pub open spec fn class_pitch(classes: Seq<NetClass>, k: int) -> int
    decreases k,
{
    if k <= 0 {
        GLOBAL_CELL_NM as int
    } else if k == 1 {
        classes[0].track_width_nm + classes[0].clearance_nm
    } else {
        let p = class_pitch(classes, k - 1);
        let q = classes[k - 1].track_width_nm + classes[k - 1].clearance_nm;
        if q > p {
            q
        } else {
            p
        }
    }
}

/// How many tracks fit across a coarse cell per layer: the cell size over
/// the board's largest pitch, at least one.
pub open spec fn coarse_capacity(board: &Board) -> int {
    let p = class_pitch(board.net_classes@, board.net_classes@.len() as int);
    let d = if p > 1 {
        p
    } else {
        1
    };
    let c = (GLOBAL_CELL_NM as int) / d;
    if c > 1 {
        c
    } else {
        1
    }
}

/// `active` holds exactly the nets of `cs`.
pub open spec fn nets_of(active: Seq<NetId>, cs: Seq<Connection>) -> bool {
    forall|net: NetId| #[trigger] active.contains(net) <==> exists|k: int| 0 <= k < cs.len() && (#[trigger] cs[k]).net == net
}

/// `g`'s capacities are the coarse capacity on every layer, reduced at the
/// cells that fixed copper of nets other than those of `cs` covers.
pub open spec fn coarse_costs(g: &GlobalGrid, board: &Board, cs: Seq<Connection>) -> bool {
    &&& forall|l: int| 0 <= l < g_layers(g) ==> #[trigger] g.layer_capacity@[l] == coarse_capacity(board)
    &&& g.obstruction@.len() == g_size(g)
    &&& exists|active: Seq<NetId>|
        #[trigger] nets_of(active, cs) && forall|c: GCell|
            g_in_bounds(g, c) ==> #[trigger] g.obstruction@[g_index(g, c)] == spec_obstruction(
                spec_obstacles(board),
                g,
                layer_ids(board.layers@),
                active,
                c,
            )
}

/// The requests negotiated for `cs`: each connection's start cells and
/// goal cells.
pub open spec fn coarse_requests(g: &GlobalGrid, board: &Board, cs: Seq<Connection>, reqs: Seq<NetRequest>) -> bool {
    &&& reqs.len() == cs.len()
    &&& forall|k: int|
        0 <= k < cs.len() ==> (#[trigger] reqs[k]).starts@ == coarse_cells(g, board, cs[k].from) && reqs[k].goals@
            == coarse_cells(g, board, cs[k].to)
}

/// The waypoints of a coarse path: its cell centres with repeats
/// collapsed; none without a path.
pub open spec fn waypoints_of(g: &GlobalGrid, p: Option<Vec<GCell>>) -> Seq<Point> {
    match p {
        Some(cells) => spec_dedup(cells@.map_values(|c: GCell| gpoint(g, c))),
        None => Seq::empty(),
    }
}

/// Where the coarse grid fits, `w` are the waypoints of the last round of
/// the negotiation of `cs` on the coarse grid: each connection's
/// negotiated path's cell centres with repeats collapsed, none where no
/// path was found.
#[verifier::opaque]
pub open spec fn negotiated_waypoints(board: &Board, cs: Seq<Connection>, w: Seq<Vec<Point>>) -> bool {
    exists|
        g: GlobalGrid,
        reqs: Seq<NetRequest>,
        hs: Seq<Seq<i64>>,
        ps: Seq<Seq<Option<Vec<GCell>>>>,
        os: Seq<Seq<(GCell, GCell, i64, i64)>>,
    |
        #![trigger coarse_shape(&g, board, cs), negotiation_rounds(&g, reqs, hs, ps, os)]
        coarse_shape(&g, board, cs) && coarse_costs(&g, board, cs) && coarse_requests(&g, board, cs, reqs)
            && negotiation_rounds(&g, reqs, hs, ps, os) && hs.len() == ps.len() && ps.len()
            <= MAX_NEGOTIATION_ITERATIONS && (os.last().len() == 0 || ps.len() == MAX_NEGOTIATION_ITERATIONS)
            && forall|i: int| 0 <= i < w.len() ==> (#[trigger] w[i])@ == waypoints_of(&g, ps.last()[i])
}

/// Negotiates every connection together on one board-wide coarse grid
/// (capacity reduced where fixed copper of other nets sits) and returns
/// each connection's negotiated path as waypoints (cell centres, repeats
/// collapsed), in connection order; an empty list where no coarse path
/// was found. Returns no lists at all when there is nothing to negotiate
/// or the grid would leave the coordinate range.
fn negotiate_global_routes(board: &Board, all_connections: &Vec<Connection>) -> (r: Vec<Vec<Point>>)
    requires
        board.geometry_valid(),
        forall|i: int|
            0 <= i < all_connections@.len() ==> (#[trigger] all_connections@[i]).from.position.in_range()
                && all_connections@[i].to.position.in_range(),
    ensures
        r@.len() == (if coarse_ok(board, all_connections@) {
            all_connections@.len()
        } else {
            0
        }),
        coarse_ok(board, all_connections@) ==> exists|g: GlobalGrid|
            #[trigger] coarse_shape(&g, board, all_connections@) && forall|i: int|
                0 <= i < r@.len() ==> coarse_answer(&g, board, all_connections@[i], (#[trigger] r@[i])@),
        coarse_ok(board, all_connections@) ==> negotiated_waypoints(board, all_connections@, r@),
        waypoints_ok(r@),
{
    let ghost cs = all_connections@;
    let layers = crate::detail::router::layer_ids_of(&board.layers);
    let n = all_connections.len();
    if n == 0 || layers.len() == 0 {
        return Vec::new();
    }
    let mut min_x: i64 = all_connections[0].from.position.x;
    let mut max_x: i64 = min_x;
    let mut min_y: i64 = all_connections[0].from.position.y;
    let mut max_y: i64 = min_y;
    let mut i: usize = 0;
    while i < n
        invariant
            i <= n,
            n == all_connections@.len(),
            forall|k: int|
                0 <= k < all_connections@.len() ==> (#[trigger] all_connections@[k]).from.position.in_range()
                    && all_connections@[k].to.position.in_range(),
            coord_in_range(min_x as int),
            coord_in_range(max_x as int),
            coord_in_range(min_y as int),
            coord_in_range(max_y as int),
            min_x <= max_x,
            min_y <= max_y,
            cs == all_connections@,
            min_x == conn_lo(cs, true, i as int),
            max_x == conn_hi(cs, true, i as int),
            min_y == conn_lo(cs, false, i as int),
            max_y == conn_hi(cs, false, i as int),
        decreases n - i,
    {
        let a = all_connections[i].from.position;
        let b = all_connections[i].to.position;
        proof {
            assert(all_connections@[i as int].from.position.in_range());
        }
        if a.x < min_x { min_x = a.x; }
        if a.x > max_x { max_x = a.x; }
        if a.y < min_y { min_y = a.y; }
        if a.y > max_y { max_y = a.y; }
        if b.x < min_x { min_x = b.x; }
        if b.x > max_x { max_x = b.x; }
        if b.y < min_y { min_y = b.y; }
        if b.y > max_y { max_y = b.y; }
        i += 1;
    }
    let ox = min_x - GLOBAL_MARGIN_NM;
    let oy = min_y - GLOBAL_MARGIN_NM;
    let fx = max_x + GLOBAL_MARGIN_NM;
    let fy = max_y + GLOBAL_MARGIN_NM;
    if !(-1_000_000_000 <= ox && -1_000_000_000 <= oy && fx <= 1_000_000_000 && fy <= 1_000_000_000) {
        return Vec::new();
    }
    assert(ox == coarse_lo(cs, true) && oy == coarse_lo(cs, false));
    assert(fx == coarse_hi(cs, true) && fy == coarse_hi(cs, false));
    proof {
        assert(0 <= (fx - ox) / (GLOBAL_CELL_NM as int) <= 2000);
        assert(0 <= (fy - oy) / (GLOBAL_CELL_NM as int) <= 2000);
    }
    let width = ((fx - ox) / GLOBAL_CELL_NM + 1) as i32;
    let height = ((fy - oy) / GLOBAL_CELL_NM + 1) as i32;
    proof {
        assert((width as usize) * (height as usize) <= 2001 * 2001) by (nonlinear_arith)
            requires
                1 <= width <= 2001,
                1 <= height <= 2001,
        ;
    }
    let mut pitch_nm: i64 = GLOBAL_CELL_NM;
    let mut found = false;
    let mut k: usize = 0;
    while k < board.net_classes.len()
        invariant
            k <= board.net_classes@.len(),
            board.geometry_valid(),
            0 <= pitch_nm <= 2_000_000_000,
            found == (k > 0),
            pitch_nm == class_pitch(board.net_classes@, k as int),
        decreases board.net_classes@.len() - k,
    {
        let c = &board.net_classes[k];
        proof {
            assert(crate::model::board::dim_ok(board.net_classes@[k as int].clearance_nm as int));
        }
        let p = c.track_width_nm + c.clearance_nm;
        if !found || p > pitch_nm {
            pitch_nm = p;
            found = true;
        }
        k += 1;
    }
    let divisor = if pitch_nm > 1 { pitch_nm } else { 1 };
    let per_layer = GLOBAL_CELL_NM / divisor;
    let capacity_per_layer = if per_layer > 1 { per_layer } else { 1 };
    assert(capacity_per_layer == coarse_capacity(board));
    let mut layer_capacity: Vec<i64> = Vec::new();
    while layer_capacity.len() < layers.len()
        invariant
            layer_capacity@.len() <= layers@.len(),
            forall|l: int| 0 <= l < layer_capacity@.len() ==> #[trigger] layer_capacity@[l] == capacity_per_layer,
        decreases layers@.len() - layer_capacity@.len(),
    {
        let ghost lc0 = layer_capacity@;
        layer_capacity.push(capacity_per_layer);
        proof {
            assert forall|l: int| 0 <= l < layer_capacity@.len() implies #[trigger] layer_capacity@[l] == capacity_per_layer by {
                if l < lc0.len() {
                    assert(layer_capacity@[l] == lc0[l]);
                }
            }
        }
    }
    assert(width == coarse_count(cs, true) && height == coarse_count(cs, false));
    assert(layers@.len() == board.layers@.len());
    let cells = (width as usize) * (height as usize);
    let total = match cells.checked_mul(layers.len()) {
        Some(t) => t,
        None => {
            assert(coarse_count(cs, true) * coarse_count(cs, false) * board.layers@.len() * 2 > usize::MAX) by (nonlinear_arith)
                requires
                    cells == coarse_count(cs, true) * coarse_count(cs, false),
                    cells * board.layers@.len() > usize::MAX,
            ;
            return Vec::new();
        },
    };
    match total.checked_mul(2) {
        Some(_) => {},
        None => {
            assert(coarse_count(cs, true) * coarse_count(cs, false) * board.layers@.len() * 2 > usize::MAX) by (nonlinear_arith)
                requires
                    cells == coarse_count(cs, true) * coarse_count(cs, false),
                    total == cells * board.layers@.len(),
                    total * 2 > usize::MAX,
            ;
            return Vec::new();
        },
    }
    assert(coarse_count(cs, true) * coarse_count(cs, false) * board.layers@.len() * 2 <= usize::MAX) by (nonlinear_arith)
        requires
            cells == coarse_count(cs, true) * coarse_count(cs, false),
            total == cells * board.layers@.len(),
            total * 2 <= usize::MAX,
    ;
    assert(coarse_ok(board, cs));
    let mut grid = GlobalGrid {
        origin: Point { x: ox, y: oy },
        cell_size_nm: GLOBAL_CELL_NM,
        width,
        height,
        layer_capacity,
        obstruction: Vec::new(),
    };
    proof {
        assert(g_size(&grid) == (width as int) * (height as int) * (layers@.len() as int));
        assert(coarse_shape(&grid, board, cs));
    }
    let mut active: Vec<NetId> = Vec::new();
    let mut i: usize = 0;
    while i < n
        invariant
            i <= n,
            n == all_connections@.len(),
            cs == all_connections@,
            forall|net: NetId| #[trigger] active@.contains(net) <==> exists|k: int| 0 <= k < i && (#[trigger] cs[k]).net == net,
        decreases n - i,
    {
        let net = all_connections[i].net;
        let ghost a0 = active@;
        if !contains_net(&active, net) {
            active.push(net);
        }
        proof {
            assert forall|x: NetId| #[trigger] active@.contains(x) <==> exists|k: int| 0 <= k < i + 1 && (#[trigger] cs[k]).net == x by {
                if active@.contains(x) {
                    if !a0.contains(x) {
                        assert(x == net);
                        assert(cs[i as int].net == x);
                    }
                }
                if exists|k: int| 0 <= k < i + 1 && (#[trigger] cs[k]).net == x {
                    let k = choose|k: int| 0 <= k < i + 1 && (#[trigger] cs[k]).net == x;
                    if k < i {
                        assert(a0.contains(x));
                        let j = choose|j: int| 0 <= j < a0.len() && a0[j] == x;
                        if a0.len() < active@.len() {
                            assert(active@[j] == a0[j]);
                        }
                    } else {
                        if a0.contains(x) {
                            let j = choose|j: int| 0 <= j < a0.len() && a0[j] == x;
                            if a0.len() < active@.len() {
                                assert(active@[j] == a0[j]);
                            }
                        } else {
                            assert(active@[a0.len() as int] == x);
                        }
                    }
                }
            }
        }
        i += 1;
    }
    let ghost grid0 = grid;
    grid.obstruction = obstruction_from_board(board, &grid, &layers, &active);
    assert(coarse_shape(&grid, board, cs));
    proof {
        assert forall|c: GCell| g_in_bounds(&grid, c) implies #[trigger] grid.obstruction@[g_index(&grid, c)] == spec_obstruction(
            spec_obstacles(board),
            &grid,
            layer_ids(board.layers@),
            active@,
            c,
        ) by {
            assert(g_in_bounds(&grid0, c));
            assert(g_index(&grid0, c) == g_index(&grid, c));
            assert(grid.obstruction@[g_index(&grid0, c)] == spec_obstruction(spec_obstacles(board), &grid0, layers@, active@, c));
            assert(layers@ == layer_ids(board.layers@));
            let obs = spec_obstacles(board);
            assert forall|k: int| 0 <= k < obs.len() implies #[trigger] covers(obs[k], &grid0, layers@, active@, c) == covers(
                obs[k],
                &grid,
                layers@,
                active@,
                c,
            ) by {
                assert(gpoint(&grid0, c) == gpoint(&grid, c));
            }
            assert(grid0.layer_capacity@ == grid.layer_capacity@);
            assert(spec_obstruction(obs, &grid0, layers@, active@, c) == spec_obstruction(obs, &grid, layers@, active@, c));
        }
        assert(nets_of(active@, cs));
        assert(coarse_costs(&grid, board, cs));
    }
    let mut requests: Vec<NetRequest> = Vec::new();
    let mut i: usize = 0;
    while i < n
        invariant
            i <= n,
            n == all_connections@.len(),
            requests@.len() == i,
            grid.cell_size_nm == GLOBAL_CELL_NM,
            grid.origin == (Point { x: ox, y: oy }),
            -1_000_000_000 <= ox <= 1_000_000_000,
            -1_000_000_000 <= oy <= 1_000_000_000,
            forall|k: int|
                0 <= k < all_connections@.len() ==> (#[trigger] all_connections@[k]).from.position.in_range()
                    && all_connections@[k].to.position.in_range(),
            layers@ == layer_ids(board.layers@),
            forall|k: int|
                0 <= k < i ==> (#[trigger] requests@[k]).starts@ == coarse_cells(&grid, board, all_connections@[k].from)
                    && requests@[k].goals@ == coarse_cells(&grid, board, all_connections@[k].to),
        decreases n - i,
    {
        let c = &all_connections[i];
        proof {
            assert(all_connections@[i as int].from.position.in_range());
        }
        let starts = endpoint_cells(&grid, &layers, &c.from.layers, c.from.position);
        let goals = endpoint_cells(&grid, &layers, &c.to.layers, c.to.position);
        let ghost r0 = requests@;
        requests.push(NetRequest { starts, goals });
        proof {
            assert forall|k: int| 0 <= k < i + 1 implies (#[trigger] requests@[k]).starts@ == coarse_cells(
                &grid,
                board,
                all_connections@[k].from,
            ) && requests@[k].goals@ == coarse_cells(&grid, board, all_connections@[k].to) by {
                if k < i {
                    assert(requests@[k] == r0[k]);
                }
            }
        }
        i += 1;
    }
    let result = negotiate(&grid, requests.as_slice(), MAX_NEGOTIATION_ITERATIONS);
    let mut out: Vec<Vec<Point>> = Vec::new();
    let mut i: usize = 0;
    while i < result.paths.len()
        invariant
            i <= result.paths@.len(),
            paths_answer(&grid, requests@, result.paths@),
            requests@.len() == n,
            n == all_connections@.len(),
            out@.len() == i,
            waypoints_ok(out@),
            forall|k: int|
                0 <= k < n ==> (#[trigger] requests@[k]).starts@ == coarse_cells(&grid, board, all_connections@[k].from)
                    && requests@[k].goals@ == coarse_cells(&grid, board, all_connections@[k].to),
            forall|k: int| 0 <= k < i ==> coarse_answer(&grid, board, all_connections@[k], (#[trigger] out@[k])@),
            forall|k: int| 0 <= k < i ==> (#[trigger] out@[k])@ == waypoints_of(&grid, result.paths@[k]),
            grid.cell_size_nm == GLOBAL_CELL_NM,
            grid.origin == (Point { x: ox, y: oy }),
            -1_000_000_000 <= ox <= 1_000_000_000,
            -1_000_000_000 <= oy <= 1_000_000_000,
            ox + (grid.width - 1) * GLOBAL_CELL_NM <= fx <= 1_000_000_000,
            oy + (grid.height - 1) * GLOBAL_CELL_NM <= fy <= 1_000_000_000,
            grid.width >= 1,
            grid.height >= 1,
        decreases result.paths@.len() - i,
    {
        let ghost o0 = out@;
        let wps: Vec<Point> = match &result.paths[i] {
            Some(cells) => {
                proof {
                    assert(valid_gpath(&grid, requests@[i as int].starts@, requests@[i as int].goals@, cells@));
                }
                let mut pts: Vec<Point> = Vec::new();
                let mut j: usize = 0;
                while j < cells.len()
                    invariant
                        j <= cells@.len(),
                        valid_gpath(&grid, requests@[i as int].starts@, requests@[i as int].goals@, cells@),
                        grid.cell_size_nm == GLOBAL_CELL_NM,
                        grid.origin == (Point { x: ox, y: oy }),
                        -1_000_000_000 <= ox <= 1_000_000_000,
                        -1_000_000_000 <= oy <= 1_000_000_000,
                        ox + (grid.width - 1) * GLOBAL_CELL_NM <= fx <= 1_000_000_000,
                        oy + (grid.height - 1) * GLOBAL_CELL_NM <= fy <= 1_000_000_000,
                        pts@.len() == j,
                        forall|q: int| 0 <= q < j ==> (#[trigger] pts@[q]).in_range(),
                        forall|q: int| 0 <= q < j ==> #[trigger] pts@[q] == gpoint(&grid, cells@[q]),
                    decreases cells@.len() - j,
                {
                    let c = cells[j];
                    proof {
                        lemma_gpath_in_bounds(&grid, requests@[i as int].starts@, requests@[i as int].goals@, cells@, j as int);
                        assert(c.x * GLOBAL_CELL_NM <= (grid.width - 1) * GLOBAL_CELL_NM) by (nonlinear_arith)
                            requires c.x <= grid.width - 1;
                        assert(c.y * GLOBAL_CELL_NM <= (grid.height - 1) * GLOBAL_CELL_NM) by (nonlinear_arith)
                            requires c.y <= grid.height - 1;
                        assert(c.x * GLOBAL_CELL_NM >= 0) by (nonlinear_arith)
                            requires c.x >= 0;
                        assert(c.y * GLOBAL_CELL_NM >= 0) by (nonlinear_arith)
                            requires c.y >= 0;
                    }
                    let p = grid.point_of(c);
                    pts.push(p);
                    j += 1;
                }
                let d = dedup_points(&pts);
                proof {
                    lemma_dedup_props(pts@);
                    assert(pts@ =~= cells@.map_values(|c: GCell| gpoint(&grid, c)));
                    assert(spec_dedup(pts@).len() > 0);
                    let ghost conn = all_connections@[i as int];
                    assert(valid_gpath(&grid, coarse_cells(&grid, board, conn.from), coarse_cells(&grid, board, conn.to), cells@));
                    assert(coarse_answer(&grid, board, conn, d@));
                }
                d
            },
            None => {
                proof {
                    let ghost conn = all_connections@[i as int];
                    assert(paths_answer(&grid, requests@, result.paths@));
                    assert(result.paths@[i as int] is None);
                    let ghost st = requests@[i as int].starts@;
                    let ghost gl = requests@[i as int].goals@;
                    assert(forall|q: Seq<GCell>| !valid_gpath(&grid, st, gl, q));
                    assert(st == coarse_cells(&grid, board, conn.from));
                    assert(gl == coarse_cells(&grid, board, conn.to));
                    assert(coarse_answer(&grid, board, conn, Seq::<Point>::empty()));
                }
                Vec::new()
            },
        };
        out.push(wps);
        proof {
            assert forall|k: int| 0 <= k < i + 1 implies coarse_answer(&grid, board, all_connections@[k], (#[trigger] out@[k])@)
                && out@[k]@ == waypoints_of(&grid, result.paths@[k]) by {
                if k < i {
                    assert(out@[k] == o0[k]);
                }
            }
            assert forall|q: int| 0 <= q < out@.len() implies {
                &&& no_repeats((#[trigger] out@[q])@)
                &&& forall|j: int| 0 <= j < out@[q]@.len() ==> (#[trigger] out@[q]@[j]).in_range()
            } by {
                if q < o0.len() {
                    assert(out@[q] == o0[q]);
                }
            }
        }
        i += 1;
    }
    proof {
        assert(coarse_shape(&grid, board, cs));
        let (hs, ps, os) = choose|hs: Seq<Seq<i64>>, ps: Seq<Seq<Option<Vec<GCell>>>>, os: Seq<Seq<(GCell, GCell, i64, i64)>>|
            #[trigger] negotiation_rounds(&grid, requests@, hs, ps, os) && hs.len() == ps.len() && ps.len() <= (if MAX_NEGOTIATION_ITERATIONS > 1 {
                MAX_NEGOTIATION_ITERATIONS as int
            } else {
                1
            }) && result.paths@ == ps.last() && result.overused_edges@ == os.last() && (result.converged || ps.len() == (if MAX_NEGOTIATION_ITERATIONS > 1 {
                MAX_NEGOTIATION_ITERATIONS as int
            } else {
                1
            }));
        assert(coarse_requests(&grid, board, cs, requests@));
        assert(negotiation_rounds(&grid, requests@, hs, ps, os));
        reveal(negotiated_waypoints);
        assert(negotiated_waypoints(board, cs, out@));
    }
    out
}

/// The id after `x`, wrapping to 0 after `u32::MAX`.
pub open spec fn wrap_inc(x: u32) -> u32 {
    if x == u32::MAX {
        0
    } else {
        (x + 1) as u32
    }
}

/// The id handed out `k` steps after `first`.
pub open spec fn id_after(first: u32, k: nat) -> u32
    decreases k,
{
    if k == 0 {
        first
    } else {
        wrap_inc(id_after(first, (k - 1) as nat))
    }
}

fn next_id(x: u32) -> (r: u32)
    ensures
        r == wrap_inc(x),
{
    if x == u32::MAX {
        0
    } else {
        x + 1
    }
}

/// The tracks committed for the segments of a route: unlocked, on `net`,
/// `width` wide, with consecutive ids from `first`.
pub open spec fn new_tracks(segs: Seq<(Segment, LayerId)>, first: u32, width: i64, net: NetId) -> Seq<Track> {
    Seq::new(
        segs.len(),
        |i: int|
            Track {
                id: TrackId(id_after(first, i as nat)),
                segment: segs[i].0,
                width_nm: width,
                layer: segs[i].1,
                net,
                locked: false,
            },
    )
}

/// The vias committed for the layer changes of a route: unlocked, on
/// `net`, spanning `span`, sized by the net class `cls`, with consecutive
/// ids from `first`.
pub open spec fn new_vias(pts: Seq<Point>, first: u32, cls: NetClass, span: (LayerId, LayerId), net: NetId) -> Seq<
    Via,
> {
    Seq::new(
        pts.len(),
        |i: int|
            Via {
                id: ViaId(id_after(first, i as nat)),
                position: pts[i],
                diameter_nm: cls.via_diameter_nm,
                drill_nm: cls.via_drill_nm,
                from_layer: span.0,
                to_layer: span.1,
                net,
                locked: false,
            },
    )
}

/// `after` is `before` with route `v` of `net` committed as tracks and
/// vias in class `cls`, ids starting at `t0` and `v0`.
pub open spec fn committed(
    before: &Board,
    after: &Board,
    net: NetId,
    cls: NetClass,
    v: (Seq<(Segment, LayerId)>, Seq<Point>),
    t0: u32,
    v0: u32,
    span: (LayerId, LayerId),
) -> bool {
    &&& after.tracks@ == before.tracks@ + new_tracks(v.0, t0, cls.track_width_nm, net)
    &&& after.vias@ == before.vias@ + new_vias(v.1, v0, cls, span, net)
}

/// Fields other than tracks and vias are the same.
pub open spec fn same_but_copper(before: &Board, after: &Board) -> bool {
    &&& after.layers == before.layers
    &&& after.nets == before.nets
    &&& after.net_classes == before.net_classes
    &&& after.pads == before.pads
    &&& after.rule_areas == before.rule_areas
}

/// Routes one two-pin connection with `waypoints` as a search-window hint
/// and, on success, commits the route as new tracks and vias (ids handed
/// out from the two counters). Returns whether it succeeded; on failure
/// the board and the counters are unchanged.
fn route_and_commit(
    board: &mut Board,
    connection: &Connection,
    waypoints: &[Point],
    next_track_id: &mut u32,
    next_via_id: &mut u32,
    full_span: (LayerId, LayerId),
) -> (r: bool)
    requires
        old(board).geometry_valid(),
        connection.from.position.in_range(),
        connection.to.position.in_range(),
        forall|i: int| 0 <= i < waypoints@.len() ==> (#[trigger] waypoints@[i]).in_range(),
    ensures
        final(board).geometry_valid(),
        same_but_copper(old(board), final(board)),
        match route_setup(old(board), connection, waypoints@) {
            None => !r,
            Some((bounds, half, via_half, starts, goals)) => {
                &&& r ==> exists|v: (Seq<(Segment, LayerId)>, Seq<Point>)|
                    #[trigger] routes_to(old(board), connection, bounds, half, via_half, starts, goals, v) && {
                        &&& committed(
                            old(board),
                            final(board),
                            connection.net,
                            old(board).net_classes@[class_of(old(board), connection.net)->0],
                            v,
                            *old(next_track_id),
                            *old(next_via_id),
                            full_span,
                        )
                        &&& *final(next_track_id) == id_after(*old(next_track_id), v.0.len())
                        &&& *final(next_via_id) == id_after(*old(next_via_id), v.1.len())
                    }
                &&& !r ==> unroutable(old(board), connection, bounds, half, via_half, starts, goals)
            },
        },
        !r ==> {
            &&& final(board).tracks@ == old(board).tracks@
            &&& final(board).vias@ == old(board).vias@
            &&& *final(next_track_id) == *old(next_track_id)
            &&& *final(next_via_id) == *old(next_via_id)
        },
{
    let class_index = match board.net_class_index(connection.net) {
        Some(i) => i,
        None => return false,
    };
    let width_nm = board.net_classes[class_index].track_width_nm;
    let via_diameter_nm = board.net_classes[class_index].via_diameter_nm;
    let via_drill_nm = board.net_classes[class_index].via_drill_nm;
    let routed = match route_connection(board, connection, waypoints) {
        Some(rp) => rp,
        None => return false,
    };
    let ghost b0 = *board;
    let ghost cls = b0.net_classes@[class_index as int];
    let ghost t0 = *next_track_id;
    let ghost v0 = *next_via_id;
    proof {
        assert(dim_ok(cls.track_width_nm as int));
        assert(dim_ok(cls.via_diameter_nm as int));
    }
    let mut i: usize = 0;
    while i < routed.segments.len()
        invariant
            i <= routed.segments@.len(),
            routed_in_range(routed@),
            b0.geometry_valid(),
            dim_ok(width_nm as int),
            width_nm == cls.track_width_nm,
            same_but_copper(&b0, board),
            board.vias@ == b0.vias@,
            board.tracks@ == b0.tracks@ + new_tracks(routed.segments@.subrange(0, i as int), t0, width_nm, connection.net),
            *next_track_id == id_after(t0, i as nat),
            *next_via_id == v0,
        decreases routed.segments@.len() - i,
    {
        let (segment, layer) = routed.segments[i];
        let ghost before = board.tracks@;
        board.tracks.push(Track { id: TrackId(*next_track_id), segment, width_nm, layer, net: connection.net, locked: false });
        *next_track_id = next_id(*next_track_id);
        proof {
            assert(board.tracks@ =~= b0.tracks@ + new_tracks(routed.segments@.subrange(0, i + 1), t0, width_nm, connection.net));
        }
        i += 1;
    }
    let mut k: usize = 0;
    while k < routed.vias.len()
        invariant
            k <= routed.vias@.len(),
            routed_in_range(routed@),
            b0.geometry_valid(),
            cls == b0.net_classes@[class_index as int],
            via_diameter_nm == cls.via_diameter_nm,
            via_drill_nm == cls.via_drill_nm,
            same_but_copper(&b0, board),
            board.tracks@ == b0.tracks@ + new_tracks(routed.segments@, t0, width_nm, connection.net),
            board.vias@ == b0.vias@ + new_vias(routed.vias@.subrange(0, k as int), v0, cls, full_span, connection.net),
            *next_track_id == id_after(t0, routed.segments@.len()),
            *next_via_id == id_after(v0, k as nat),
        decreases routed.vias@.len() - k,
    {
        let position = routed.vias[k];
        board.vias.push(Via {
            id: ViaId(*next_via_id),
            position,
            diameter_nm: via_diameter_nm,
            drill_nm: via_drill_nm,
            from_layer: full_span.0,
            to_layer: full_span.1,
            net: connection.net,
            locked: false,
        });
        *next_via_id = next_id(*next_via_id);
        proof {
            assert(board.vias@ =~= b0.vias@ + new_vias(routed.vias@.subrange(0, k + 1), v0, cls, full_span, connection.net));
        }
        k += 1;
    }
    proof {
        assert(routed.segments@.subrange(0, routed.segments@.len() as int) =~= routed.segments@);
        assert(routed.vias@.subrange(0, routed.vias@.len() as int) =~= routed.vias@);
        assert(board.geometry_valid()) by {
            assert forall|j: int| 0 <= j < board.tracks@.len() implies {
                &&& (#[trigger] board.tracks@[j]).segment.in_range()
                &&& dim_ok(board.tracks@[j].width_nm as int)
            } by {
                if j >= b0.tracks@.len() {
                    assert(routed.segments@[j - b0.tracks@.len()].0.in_range());
                }
            }
            assert forall|j: int| 0 <= j < board.vias@.len() implies {
                &&& (#[trigger] board.vias@[j]).position.in_range()
                &&& dim_ok(board.vias@[j].diameter_nm as int)
            } by {
                if j >= b0.vias@.len() {
                    assert(routed.vias@[j - b0.vias@.len()].in_range());
                }
            }
        }
    }
    true
}

proof fn lemma_id_after_add(f: u32, a: nat, b: nat)
    ensures
        id_after(id_after(f, a), b) == id_after(f, a + b),
    decreases b,
{
    if b > 0 {
        lemma_id_after_add(f, a, (b - 1) as nat);
        assert(id_after(f, a + b) == wrap_inc(id_after(f, (a + b - 1) as nat)));
    }
}

/// A report of one routing pass.
#[derive(Debug, Clone)]
pub struct RouteReport {
    /// Nets whose every connection routed.
    pub routed: usize,
    /// Nets a connection existed for but at least one of its connections
    /// found no path within its search window: left unrouted (edges that
    /// did route stay committed), not silently dropped.
    pub failed: Vec<NetId>,
    /// Notes from the unrouted-connection scan on anything this pass could
    /// not even attempt.
    pub skipped: Vec<String>,
}

impl Default for RouteReport {
    fn default() -> (r: Self)
        ensures
            r.routed == 0,
            r.failed@.len() == 0,
            r.skipped@.len() == 0,
    {
        RouteReport { routed: 0, failed: Vec::new(), skipped: Vec::new() }
    }
}

/// `net` is one the routing pass attempts: an unrouted two-pin net or an
/// unrouted multi-pin net.
pub open spec fn attempted(b: &Board, net: NetId) -> bool {
    ||| exists|i: int| 0 <= i < spec_connections(b).len() && (#[trigger] spec_connections(b)[i]).0 == net
    ||| exists|j: int| 0 <= j < spec_multi_pin_nets(b).len() && (#[trigger] spec_multi_pin_nets(b)[j]).0 == net
}

/// One connection's turn: `c` with hint `w` is routed on `before`, giving
/// `after`. `ok` exactly when its search found a route: then a least-cost
/// route of the search is committed with ids from `tid` and `vid`; else
/// no route exists (or the search cannot be set up) and the copper stays.
pub open spec fn route_step(
    before: &Board,
    after: &Board,
    c: Connection,
    w: Seq<Point>,
    ok: bool,
    tid: u32,
    vid: u32,
    span: (LayerId, LayerId),
) -> bool {
    &&& same_but_copper(before, after)
    &&& match route_setup(before, &c, w) {
        None => !ok,
        Some((bounds, half, via_half, starts, goals)) => {
            &&& ok ==> exists|v: (Seq<(Segment, LayerId)>, Seq<Point>)|
                #[trigger] routes_to(before, &c, bounds, half, via_half, starts, goals, v) && committed(
                    before,
                    after,
                    c.net,
                    before.net_classes@[class_of(before, c.net)->0],
                    v,
                    tid,
                    vid,
                    span,
                )
            &&& !ok ==> unroutable(before, &c, bounds, half, via_half, starts, goals)
        },
    }
    &&& !ok ==> after.tracks@ == before.tracks@ && after.vias@ == before.vias@
}

/// The boards `bs` are the turns of the connections `cs` in order, from
/// `b0`, with hints `ws` and outcomes `oks`; ids are handed out in turn
/// from one past the largest.
pub open spec fn route_trace(b0: &Board, cs: Seq<Connection>, ws: Seq<Seq<Point>>, bs: Seq<Board>, oks: Seq<bool>) -> bool {
    &&& ws.len() == cs.len()
    &&& oks.len() == cs.len()
    &&& bs.len() == cs.len() + 1
    &&& bs[0] == *b0
    &&& forall|k: int|
        0 <= k < cs.len() ==> #[trigger] route_step(
            &bs[k],
            &bs[k + 1],
            cs[k],
            ws[k],
            oks[k],
            id_after(first_track_id(b0.tracks@), (bs[k].tracks@.len() - b0.tracks@.len()) as nat),
            id_after(first_via_id(b0.vias@), (bs[k].vias@.len() - b0.vias@.len()) as nat),
            spec_full_span(b0.layers@),
        )
}

proof fn lemma_id_after_no_wrap(f: u32, k: nat)
    requires
        f + k <= u32::MAX,
    ensures
        id_after(f, k) == f + k,
    decreases k,
{
    if k > 0 {
        lemma_id_after_no_wrap(f, (k - 1) as nat);
    }
}

proof fn lemma_max_track_id(t: Seq<Track>)
    ensures
        forall|i: int| 0 <= i < t.len() ==> (#[trigger] t[i]).id.0 <= max_track_id(t),
    decreases t.len(),
{
    if t.len() > 0 {
        lemma_max_track_id(t.drop_last());
        assert forall|i: int| 0 <= i < t.len() implies (#[trigger] t[i]).id.0 <= max_track_id(t) by {
            if i < t.len() - 1 {
                assert(t[i] == t.drop_last()[i]);
            }
        }
    }
}

proof fn lemma_max_via_id(v: Seq<Via>)
    ensures
        forall|i: int| 0 <= i < v.len() ==> (#[trigger] v[i]).id.0 <= max_via_id(v),
    decreases v.len(),
{
    if v.len() > 0 {
        lemma_max_via_id(v.drop_last());
        assert forall|i: int| 0 <= i < v.len() implies (#[trigger] v[i]).id.0 <= max_via_id(v) by {
            if i < v.len() - 1 {
                assert(v[i] == v.drop_last()[i]);
            }
        }
    }
}

/// Every track and via a routing pass appends has an id that no other
/// track (resp. via) of the board carries, as long as the ids handed out
/// do not pass `u32::MAX` (past it they wrap to 0).
pub proof fn lemma_new_ids_fresh(before: &Board, after: &Board, span: (LayerId, LayerId))
    requires
        extends(before, after, first_track_id(before.tracks@), first_via_id(before.vias@), span),
        first_track_id(before.tracks@) + (after.tracks@.len() - before.tracks@.len()) <= u32::MAX + 1,
        before.tracks@.len() == 0 || max_track_id(before.tracks@) < u32::MAX,
        first_via_id(before.vias@) + (after.vias@.len() - before.vias@.len()) <= u32::MAX + 1,
        before.vias@.len() == 0 || max_via_id(before.vias@) < u32::MAX,
    ensures
        forall|i: int, j: int|
            0 <= i < after.tracks@.len() && before.tracks@.len() <= j < after.tracks@.len() && i != j
                ==> (#[trigger] after.tracks@[i]).id != (#[trigger] after.tracks@[j]).id,
        forall|i: int, j: int|
            0 <= i < after.vias@.len() && before.vias@.len() <= j < after.vias@.len() && i != j
                ==> (#[trigger] after.vias@[i]).id != (#[trigger] after.vias@[j]).id,
{
    let n = before.tracks@.len() as int;
    let t0 = first_track_id(before.tracks@);
    lemma_max_track_id(before.tracks@);
    assert forall|i: int, j: int|
        0 <= i < after.tracks@.len() && n <= j < after.tracks@.len() && i != j
            implies (#[trigger] after.tracks@[i]).id != (#[trigger] after.tracks@[j]).id by {
        lemma_id_after_no_wrap(t0, (j - n) as nat);
        assert(after.tracks@[j].id == TrackId(id_after(t0, (j - n) as nat)));
        if i >= n {
            lemma_id_after_no_wrap(t0, (i - n) as nat);
            assert(after.tracks@[i].id == TrackId(id_after(t0, (i - n) as nat)));
        } else {
            assert(after.tracks@[i] == after.tracks@.subrange(0, n)[i]);
            assert(after.tracks@[i] == before.tracks@[i]);
        }
    }
    let m = before.vias@.len() as int;
    let v0 = first_via_id(before.vias@);
    lemma_max_via_id(before.vias@);
    assert forall|i: int, j: int|
        0 <= i < after.vias@.len() && m <= j < after.vias@.len() && i != j
            implies (#[trigger] after.vias@[i]).id != (#[trigger] after.vias@[j]).id by {
        lemma_id_after_no_wrap(v0, (j - m) as nat);
        assert(after.vias@[j].id == ViaId(id_after(v0, (j - m) as nat)));
        if i >= m {
            lemma_id_after_no_wrap(v0, (i - m) as nat);
            assert(after.vias@[i].id == ViaId(id_after(v0, (i - m) as nat)));
        } else {
            assert(after.vias@[i] == after.vias@.subrange(0, m)[i]);
            assert(after.vias@[i] == before.vias@[i]);
        }
    }
}

/// Where the group of connections of the `e`-th attempted net starts.
pub open spec fn group_start(ends: Seq<usize>, e: int) -> int {
    if e <= 0 {
        0
    } else {
        ends[e - 1] as int
    }
}

/// The connections `cs` are grouped by attempted net, the groups ending
/// at `ends`: each two-pin net's one connection, then each multi-pin
/// net's tree edges, all on that net.
pub open spec fn route_groups(b0: &Board, cs: Seq<Connection>, ends: Seq<usize>) -> bool {
    let nets = attempted_nets(b0);
    let d = spec_connections(b0).len() as int;
    &&& ends.len() == nets.len()
    &&& cs.len() == (if ends.len() == 0 {
        0
    } else {
        ends.last() as int
    })
    &&& forall|e: int| 0 <= e < ends.len() ==> group_start(ends, e) <= #[trigger] ends[e] <= cs.len()
    &&& forall|e: int| 0 <= e < d ==> #[trigger] ends[e] == e + 1 && cs[e]@ == spec_connections(b0)[e]
    &&& forall|e: int, q: int|
        #![trigger ends[e], cs[q]]
        d <= e < ends.len() && group_start(ends, e) <= q < ends[e] ==> cs[q].net == nets[e]
}

/// Every connection of group `e` routed.
pub open spec fn group_routed(oks: Seq<bool>, ends: Seq<usize>, e: int) -> bool {
    forall|q: int| group_start(ends, e) <= q < ends[e] ==> #[trigger] oks[q]
}

/// The number of the first `e` groups whose every connection routed.
pub open spec fn routed_upto(oks: Seq<bool>, ends: Seq<usize>, e: int) -> int
    decreases e,
{
    if e <= 0 {
        0
    } else if group_routed(oks, ends, e - 1) {
        routed_upto(oks, ends, e - 1) + 1
    } else {
        routed_upto(oks, ends, e - 1)
    }
}

/// The nets of the first `e` groups with a connection that did not route,
/// in order.
pub open spec fn failed_upto(nets: Seq<NetId>, oks: Seq<bool>, ends: Seq<usize>, e: int) -> Seq<NetId>
    decreases e,
{
    if e <= 0 {
        Seq::empty()
    } else if group_routed(oks, ends, e - 1) {
        failed_upto(nets, oks, ends, e - 1)
    } else {
        failed_upto(nets, oks, ends, e - 1).push(nets[e - 1])
    }
}

/// The hints `ws` are the global router's waypoints for `cs`: where the
/// coarse grid fits, the cell centres of each connection's path in the
/// last round of the negotiation over it (a coarse path of the grid);
/// none otherwise.
pub open spec fn route_hints(b0: &Board, cs: Seq<Connection>, ws: Seq<Seq<Point>>) -> bool {
    if coarse_ok(b0, cs) {
        &&& exists|g: GlobalGrid|
            #[trigger] coarse_shape(&g, b0, cs) && forall|k: int|
                0 <= k < cs.len() ==> coarse_answer(&g, b0, cs[k], #[trigger] ws[k])
        &&& exists|wv: Seq<Vec<Point>>|
            #[trigger] negotiated_waypoints(b0, cs, wv) && wv.len() == ws.len() && forall|k: int|
                0 <= k < ws.len() ==> (#[trigger] wv[k])@ == ws[k]
    } else {
        forall|k: int| 0 <= k < ws.len() ==> (#[trigger] ws[k]).len() == 0
    }
}

/// The largest track id, 0 for none.
pub open spec fn max_track_id(t: Seq<Track>) -> u32
    decreases t.len(),
{
    if t.len() == 0 {
        0
    } else {
        let m = max_track_id(t.drop_last());
        if t.last().id.0 > m {
            t.last().id.0
        } else {
            m
        }
    }
}

/// The largest via id, 0 for none.
pub open spec fn max_via_id(v: Seq<Via>) -> u32
    decreases v.len(),
{
    if v.len() == 0 {
        0
    } else {
        let m = max_via_id(v.drop_last());
        if v.last().id.0 > m {
            v.last().id.0
        } else {
            m
        }
    }
}

/// The first id handed to a new track: one past the largest existing id
/// (wrapping), 0 on a board without tracks.
pub open spec fn first_track_id(t: Seq<Track>) -> u32 {
    if t.len() == 0 {
        0
    } else {
        wrap_inc(max_track_id(t))
    }
}

/// The first id handed to a new via, as for tracks.
pub open spec fn first_via_id(v: Seq<Via>) -> u32 {
    if v.len() == 0 {
        0
    } else {
        wrap_inc(max_via_id(v))
    }
}

fn first_free_track_id(tracks: &Vec<Track>) -> (r: u32)
    ensures
        r == first_track_id(tracks@),
{
    let mut m: u32 = 0;
    let mut i: usize = 0;
    while i < tracks.len()
        invariant
            i <= tracks@.len(),
            m == max_track_id(tracks@.subrange(0, i as int)),
        decreases tracks@.len() - i,
    {
        proof {
            assert(tracks@.subrange(0, i + 1).drop_last() =~= tracks@.subrange(0, i as int));
        }
        if tracks[i].id.0 > m {
            m = tracks[i].id.0;
        }
        i += 1;
    }
    proof {
        assert(tracks@.subrange(0, tracks@.len() as int) =~= tracks@);
    }
    if tracks.len() == 0 {
        0
    } else {
        next_id(m)
    }
}

fn first_free_via_id(vias: &Vec<Via>) -> (r: u32)
    ensures
        r == first_via_id(vias@),
{
    let mut m: u32 = 0;
    let mut i: usize = 0;
    while i < vias.len()
        invariant
            i <= vias@.len(),
            m == max_via_id(vias@.subrange(0, i as int)),
        decreases vias@.len() - i,
    {
        proof {
            assert(vias@.subrange(0, i + 1).drop_last() =~= vias@.subrange(0, i as int));
        }
        if vias[i].id.0 > m {
            m = vias[i].id.0;
        }
        i += 1;
    }
    proof {
        assert(vias@.subrange(0, vias@.len() as int) =~= vias@);
    }
    if vias.len() == 0 {
        0
    } else {
        next_id(m)
    }
}

/// `after` holds every track and via of `before` unchanged and in place,
/// followed only by new unlocked copper on nets the pass attempts, with
/// consecutive ids from `t0` and `v0`, every via spanning `span`.
pub open spec fn extends(before: &Board, after: &Board, t0: u32, v0: u32, span: (LayerId, LayerId)) -> bool {
    &&& before.tracks@.len() <= after.tracks@.len()
    &&& after.tracks@.subrange(0, before.tracks@.len() as int) == before.tracks@
    &&& forall|j: int|
        before.tracks@.len() <= j < after.tracks@.len() ==> {
            &&& (#[trigger] after.tracks@[j]).id == TrackId(id_after(t0, (j - before.tracks@.len()) as nat))
            &&& !after.tracks@[j].locked
            &&& attempted(before, after.tracks@[j].net)
        }
    &&& before.vias@.len() <= after.vias@.len()
    &&& after.vias@.subrange(0, before.vias@.len() as int) == before.vias@
    &&& forall|j: int|
        before.vias@.len() <= j < after.vias@.len() ==> {
            &&& (#[trigger] after.vias@[j]).id == ViaId(id_after(v0, (j - before.vias@.len()) as nat))
            &&& !after.vias@[j].locked
            &&& attempted(before, after.vias@[j].net)
            &&& after.vias@[j].from_layer == span.0
            &&& after.vias@[j].to_layer == span.1
        }
}

proof fn lemma_net_endpoints_in_range(pads: Seq<Pad>, net: NetId, k: int)
    requires
        0 <= k <= pads.len(),
        forall|j: int| 0 <= j < pads.len() ==> (#[trigger] pads[j]).circle().center.in_range(),
    ensures
        forall|i: int| 0 <= i < net_endpoints(pads, net, k).len() ==> (#[trigger] net_endpoints(pads, net, k)[i]).0.in_range(),
    decreases k,
{
    if k > 0 {
        lemma_net_endpoints_in_range(pads, net, k - 1);
        let prev = net_endpoints(pads, net, k - 1);
        assert forall|i: int| 0 <= i < net_endpoints(pads, net, k).len() implies (#[trigger] net_endpoints(pads, net, k)[i]).0.in_range() by {
            if i < prev.len() {
                assert(net_endpoints(pads, net, k)[i] == prev[i]);
            }
        }
    }
}

proof fn lemma_scan_in_range(b: &Board, m: int)
    requires
        b.geometry_valid(),
        0 <= m,
    ensures
        forall|i: int|
            0 <= i < connections_upto(b, m).len() ==> (#[trigger] connections_upto(b, m)[i]).1.0.in_range()
                && connections_upto(b, m)[i].2.0.in_range(),
        forall|i: int, q: int|
            0 <= i < multi_pin_upto(b, m).len() && 0 <= q < multi_pin_upto(b, m)[i].1.len() ==> (#[trigger] multi_pin_upto(
                b,
                m,
            )[i].1[q]).0.in_range(),
    decreases m,
{
    if m > 0 {
        lemma_scan_in_range(b, m - 1);
        let nets = pad_nets(b.pads@, b.pads@.len() as int);
        let net = nets[m - 1];
        lemma_net_endpoints_in_range(b.pads@, net, b.pads@.len() as int);
        let prev_c = connections_upto(b, m - 1);
        let prev_m = multi_pin_upto(b, m - 1);
        assert forall|i: int| 0 <= i < connections_upto(b, m).len() implies (#[trigger] connections_upto(b, m)[i]).1.0.in_range()
            && connections_upto(b, m)[i].2.0.in_range() by {
            if i < prev_c.len() {
                assert(connections_upto(b, m)[i] == prev_c[i]);
            }
        }
        assert forall|i: int, q: int|
            0 <= i < multi_pin_upto(b, m).len() && 0 <= q < multi_pin_upto(b, m)[i].1.len() implies (#[trigger] multi_pin_upto(
                b,
                m,
            )[i].1[q]).0.in_range() by {
            if i < prev_m.len() {
                assert(multi_pin_upto(b, m)[i] == prev_m[i]);
            }
        }
    }
}

/// Routes every unrouted net of `board`, committing each successful route
/// as new tracks and vias directly into `board`, so later connections see
/// earlier ones as obstacles.
///
/// Two-pin nets route directly; a net with three or more pads is first
/// decomposed into two-pin edges by `minimum_spanning_tree`, and each edge
/// routes like a two-pin net. A net counts as failed when any of its edges
/// fails; edges that did route stay committed. Before any detailed
/// routing, every connection is negotiated together on one board-wide
/// coarse grid and its negotiated path becomes the waypoint hint for the
/// detail router (no hint where negotiation found no path). Connections
/// are routed in scan order: two-pin nets first, then the edges of each
/// multi-pin net. Existing tracks and vias, locked or not, are never moved
/// or changed: new copper is only appended. Each connection routes, and
/// its copper is appended, exactly when the detail search on the board as
/// it stands at its turn finds a route; a net is reported routed when all
/// its connections routed, else once in `failed`.
#[verifier::spinoff_prover]
#[verifier::rlimit(100)]
pub fn route_board(board: &mut Board) -> (report: RouteReport)
    requires
        old(board).geometry_valid(),
    ensures
        final(board).geometry_valid(),
        same_but_copper(old(board), final(board)),
        extends(
            old(board),
            final(board),
            first_track_id(old(board).tracks@),
            first_via_id(old(board).vias@),
            spec_full_span(old(board).layers@),
        ),
        report.skipped@.len() == 0,
        report.routed + report.failed@.len() == spec_connections(old(board)).len() + spec_multi_pin_nets(
            old(board),
        ).len(),
        forall|i: int| 0 <= i < report.failed@.len() ==> attempted(old(board), #[trigger] report.failed@[i]),
        forall|i: int, j: int| 0 <= i < j < report.failed@.len() ==> report.failed@[i] != report.failed@[j],
        exists|cs: Seq<Connection>, ends: Seq<usize>, ws: Seq<Seq<Point>>, bs: Seq<Board>, oks: Seq<bool>|
            #![trigger route_trace(old(board), cs, ws, bs, oks), route_groups(old(board), cs, ends)]
            route_trace(old(board), cs, ws, bs, oks) && route_groups(old(board), cs, ends) && route_hints(
                old(board),
                cs,
                ws,
            ) && bs.last() == *final(board) && report.routed == routed_upto(oks, ends, ends.len() as int)
                && report.failed@ == failed_upto(attempted_nets(old(board)), oks, ends, ends.len() as int),
{
    let ghost b0 = *board;
    let connection_report = board.find_unrouted_connections();
    let ConnectionReport { connections, multi_pin_nets, skipped } = connection_report;
    proof {
        lemma_scan_in_range(&b0, pad_nets(b0.pads@, b0.pads@.len() as int).len() as int);
        assert forall|i: int| 0 <= i < connections@.len() implies (#[trigger] connections@[i]).from.position.in_range()
            && connections@[i].to.position.in_range() && attempted(&b0, connections@[i].net) by {
            assert(connections@.map_values(|c: Connection| c@)[i] == connections@[i]@);
            assert(spec_connections(&b0)[i].0 == connections@[i].net);
        }
        assert forall|j: int, q: int|
            0 <= j < multi_pin_nets@.len() && 0 <= q < multi_pin_nets@[j].1@.len() implies (#[trigger] multi_pin_nets@[j].1@[q]).position.in_range() by {
            assert(multi_pin_nets@.map_values(|m: (NetId, Vec<Endpoint>)| (m.0, endpoints_view(m.1@)))[j] == (
            multi_pin_nets@[j].0, endpoints_view(multi_pin_nets@[j].1@)));
            assert(endpoints_view(multi_pin_nets@[j].1@)[q] == multi_pin_nets@[j].1@[q]@);
            assert(multi_pin_upto(&b0, pad_nets(b0.pads@, b0.pads@.len() as int).len() as int)[j].1[q].0.in_range());
        }
        assert forall|j: int| 0 <= j < multi_pin_nets@.len() implies attempted(&b0, (#[trigger] multi_pin_nets@[j]).0) by {
            assert(multi_pin_nets@.map_values(|m: (NetId, Vec<Endpoint>)| (m.0, endpoints_view(m.1@)))[j] == (
            multi_pin_nets@[j].0, endpoints_view(multi_pin_nets@[j].1@)));
            assert(spec_multi_pin_nets(&b0)[j].0 == multi_pin_nets@[j].0);
        }
    }
    let n_direct = connections.len();
    let mut all_connections: Vec<Connection> = connections;
    let mut net_ids: Vec<NetId> = Vec::new();
    let mut edge_end: Vec<usize> = Vec::new();
    let mut i: usize = 0;
    while i < n_direct
        invariant
            i <= n_direct,
            n_direct == all_connections@.len(),
            net_ids@.len() == i,
            edge_end@.len() == i,
            forall|e: int| 0 <= e < i ==> #[trigger] edge_end@[e] == e + 1,
            forall|e: int| 0 <= e < i ==> attempted(&b0, #[trigger] net_ids@[e]),
            forall|k: int| 0 <= k < all_connections@.len() ==> attempted(&b0, (#[trigger] all_connections@[k]).net),
            all_connections@.map_values(|c: Connection| c@) == spec_connections(&b0),
            net_ids@ == attempted_nets(&b0).subrange(0, i as int),
        decreases n_direct - i,
    {
        proof {
            assert(all_connections@.map_values(|c: Connection| c@)[i as int] == all_connections@[i as int]@);
            assert(attempted_nets(&b0)[i as int] == spec_connections(&b0)[i as int].0);
        }
        net_ids.push(all_connections[i].net);
        edge_end.push(i + 1);
        i += 1;
        proof {
            assert(net_ids@ =~= attempted_nets(&b0).subrange(0, i as int));
        }
    }
    let ghost d = n_direct as int;
    proof {
        assert forall|e: int| 0 <= e < d implies #[trigger] edge_end@[e] == e + 1 && all_connections@[e]@ == spec_connections(&b0)[e] by {
            assert(all_connections@.map_values(|c: Connection| c@)[e] == all_connections@[e]@);
        }
        assert forall|e: int| 0 <= e < edge_end@.len() implies group_start(edge_end@, e) <= #[trigger] edge_end@[e] <= all_connections@.len() by {
        }
    }
    let mut j: usize = 0;
    while j < multi_pin_nets.len()
        invariant
            j <= multi_pin_nets@.len(),
            n_direct <= all_connections@.len(),
            net_ids@.len() == n_direct + j,
            edge_end@.len() == net_ids@.len(),
            forall|e: int| 0 <= e < edge_end@.len() ==> #[trigger] edge_end@[e] <= all_connections@.len(),
            forall|e: int| 0 <= e < net_ids@.len() ==> attempted(&b0, #[trigger] net_ids@[e]),
            forall|k: int| 0 <= k < all_connections@.len() ==> attempted(&b0, (#[trigger] all_connections@[k]).net),
            forall|k: int|
                0 <= k < all_connections@.len() ==> (#[trigger] all_connections@[k]).from.position.in_range()
                    && all_connections@[k].to.position.in_range(),
            forall|jj: int, q: int|
                0 <= jj < multi_pin_nets@.len() && 0 <= q < multi_pin_nets@[jj].1@.len() ==> (#[trigger] multi_pin_nets@[jj].1@[q]).position.in_range(),
            forall|jj: int| 0 <= jj < multi_pin_nets@.len() ==> attempted(&b0, (#[trigger] multi_pin_nets@[jj]).0),
            d == n_direct,
            d == spec_connections(&b0).len(),
            multi_pin_nets@.map_values(|m: (NetId, Vec<Endpoint>)| (m.0, endpoints_view(m.1@))) == spec_multi_pin_nets(&b0),
            net_ids@ == attempted_nets(&b0).subrange(0, d + j),
            all_connections@.len() == (if edge_end@.len() == 0 {
                0
            } else {
                edge_end@.last() as int
            }),
            forall|e: int| 0 <= e < edge_end@.len() ==> group_start(edge_end@, e) <= #[trigger] edge_end@[e],
            forall|e: int| 0 <= e < d ==> #[trigger] edge_end@[e] == e + 1 && all_connections@[e]@ == spec_connections(&b0)[e],
            forall|e: int, q: int|
                #![trigger edge_end@[e], all_connections@[q]]
                d <= e < edge_end@.len() && group_start(edge_end@, e) <= q < edge_end@[e] ==> all_connections@[q].net == net_ids@[e],
        decreases multi_pin_nets@.len() - j,
    {
        let ghost a0 = all_connections@;
        let ghost ee0 = edge_end@;
        let ghost ni0 = net_ids@;
        let net = multi_pin_nets[j].0;
        let eps = &multi_pin_nets[j].1;
        proof {
            assert(attempted(&b0, multi_pin_nets@[j as int].0));
            assert forall|q: int| 0 <= q < eps@.len() implies (#[trigger] eps@[q]).position.in_range() by {
                assert(multi_pin_nets@[j as int].1@[q].position.in_range());
            }
        }
        let edges = minimum_spanning_tree(eps.as_slice());
        proof {
            if eps@.len() >= 2 {
                let (ord, par) = choose|ord: Seq<int>, par: Seq<int>|
                    tree_order(eps@.len() as int, ord, par) && tree_edges(eps@, edges@, ord, par);
                assert forall|k: int| 0 <= k < edges@.len() implies (#[trigger] edges@[k]).from.position.in_range()
                    && edges@[k].to.position.in_range() by {
                    assert(joined_by(ord, par[k], k));
                    let w = choose|w: int| 0 <= w <= k && ord[w] == par[k];
                    assert(0 <= ord[w] < eps@.len());
                    assert(0 <= ord[k + 1] < eps@.len());
                    assert(eps@[par[k]].position.in_range());
                    assert(eps@[ord[k + 1]].position.in_range());
                }
            }
        }
        let mut k: usize = 0;
        while k < edges.len()
            invariant
                k <= edges@.len(),
                n_direct <= all_connections@.len(),
                edge_end@.len() == net_ids@.len(),
                forall|e: int| 0 <= e < edge_end@.len() ==> #[trigger] edge_end@[e] <= all_connections@.len(),
                attempted(&b0, net),
                forall|kk: int| 0 <= kk < all_connections@.len() ==> attempted(&b0, (#[trigger] all_connections@[kk]).net),
                forall|kk: int|
                    0 <= kk < all_connections@.len() ==> (#[trigger] all_connections@[kk]).from.position.in_range()
                        && all_connections@[kk].to.position.in_range(),
                forall|kk: int| 0 <= kk < edges@.len() ==> (#[trigger] edges@[kk]).from.position.in_range()
                    && edges@[kk].to.position.in_range(),
                a0.len() <= all_connections@.len(),
                forall|q: int| 0 <= q < a0.len() ==> #[trigger] all_connections@[q] == a0[q],
                forall|q: int| a0.len() <= q < all_connections@.len() ==> (#[trigger] all_connections@[q]).net == net,
                edge_end@ == ee0,
            decreases edges@.len() - k,
        {
            let from = edges[k].from.duplicate();
            let to = edges[k].to.duplicate();
            proof {
                assert(edges@[k as int].from.position.in_range());
            }
            all_connections.push(Connection { net, from, to });
            k += 1;
        }
        net_ids.push(net);
        edge_end.push(all_connections.len());
        proof {
            assert(multi_pin_nets@.map_values(|m: (NetId, Vec<Endpoint>)| (m.0, endpoints_view(m.1@)))[j as int] == (
            multi_pin_nets@[j as int].0, endpoints_view(multi_pin_nets@[j as int].1@)));
            assert(attempted_nets(&b0)[d + j] == spec_multi_pin_nets(&b0)[j as int].0);
            assert(net_ids@ =~= attempted_nets(&b0).subrange(0, d + j + 1));
            let ne = edge_end@.len() - 1;
            assert(group_start(edge_end@, ne) == a0.len()) by {
                if ne > 0 {
                    assert(edge_end@[ne - 1] == ee0.last());
                }
            }
            assert forall|e: int| 0 <= e < edge_end@.len() implies group_start(edge_end@, e) <= #[trigger] edge_end@[e] by {
                if e < ne {
                    assert(edge_end@[e] == ee0[e]);
                    if e > 0 {
                        assert(edge_end@[e - 1] == ee0[e - 1]);
                    }
                }
            }
            assert forall|e: int| 0 <= e < d implies #[trigger] edge_end@[e] == e + 1 && all_connections@[e]@ == spec_connections(&b0)[e] by {
                assert(edge_end@[e] == ee0[e]);
                assert(all_connections@[e] == a0[e]);
            }
            assert forall|e: int, q: int|
                d <= e < edge_end@.len() && group_start(edge_end@, e) <= q < edge_end@[e] implies #[trigger] all_connections@[q].net == net_ids@[e] && #[trigger] edge_end@[e] == edge_end@[e] by {
                if e < ne {
                    assert(edge_end@[e] == ee0[e]);
                    if e > 0 {
                        assert(edge_end@[e - 1] == ee0[e - 1]);
                    }
                    assert(all_connections@[q] == a0[q]);
                    assert(net_ids@[e] == ni0[e]);
                    assert(ee0[e] == ee0[e]);
                    assert(a0[q] == a0[q]);
                }
            }
        }
        j += 1;
    }
    let waypoints = negotiate_global_routes(board, &all_connections);
    let t0 = first_free_track_id(&board.tracks);
    let v0 = first_free_via_id(&board.vias);
    let mut next_track_id = t0;
    let mut next_via_id = v0;
    let full_span = full_layer_span(board);
    let mut oks: Vec<bool> = Vec::new();
    let ghost mut bs: Seq<Board> = seq![*board];
    let ghost mut ws_g: Seq<Seq<Point>> = Seq::empty();
    proof {
        assert(board.tracks@.subrange(0, b0.tracks@.len() as int) =~= b0.tracks@);
        assert(board.vias@.subrange(0, b0.vias@.len() as int) =~= b0.vias@);
    }
    let mut c: usize = 0;
    while c < all_connections.len()
        invariant
            c <= all_connections@.len(),
            oks@.len() == c,
            board.geometry_valid(),
            same_but_copper(&b0, board),
            extends(&b0, board, t0, v0, full_span),
            next_track_id == id_after(t0, (board.tracks@.len() - b0.tracks@.len()) as nat),
            next_via_id == id_after(v0, (board.vias@.len() - b0.vias@.len()) as nat),
            waypoints_ok(waypoints@),
            waypoints@.len() == 0 || waypoints@.len() == all_connections@.len(),
            forall|kk: int| 0 <= kk < all_connections@.len() ==> attempted(&b0, (#[trigger] all_connections@[kk]).net),
            forall|kk: int|
                0 <= kk < all_connections@.len() ==> (#[trigger] all_connections@[kk]).from.position.in_range()
                    && all_connections@[kk].to.position.in_range(),
            t0 == first_track_id(b0.tracks@),
            v0 == first_via_id(b0.vias@),
            full_span == spec_full_span(b0.layers@),
            bs.len() == c + 1,
            bs[0] == b0,
            bs.last() == *board,
            ws_g.len() == c,
            forall|k: int| 0 <= k < c ==> #[trigger] ws_g[k] == (if waypoints@.len() == 0 {
                Seq::<Point>::empty()
            } else {
                waypoints@[k]@
            }),
            forall|k: int|
                0 <= k < c ==> #[trigger] route_step(
                    &bs[k],
                    &bs[k + 1],
                    all_connections@[k],
                    ws_g[k],
                    oks@[k],
                    id_after(t0, (bs[k].tracks@.len() - b0.tracks@.len()) as nat),
                    id_after(v0, (bs[k].vias@.len() - b0.vias@.len()) as nat),
                    full_span,
                ),
        decreases all_connections@.len() - c,
    {
        let ghost bb = *board;
        let ghost nt0 = next_track_id;
        let ghost nv0 = next_via_id;
        let conn = &all_connections[c];
        proof {
            assert(all_connections@[c as int].from.position.in_range());
            assert(attempted(&b0, all_connections@[c as int].net));
        }
        let empty: Vec<Point> = Vec::new();
        let wps: &[Point] = if c < waypoints.len() {
            proof {
                assert(no_repeats(waypoints@[c as int]@));
            }
            waypoints[c].as_slice()
        } else {
            empty.as_slice()
        };
        let ok = route_and_commit(board, conn, wps, &mut next_track_id, &mut next_via_id, full_span);
        proof {
            if ok {
                match route_setup(&bb, conn, wps@) {
                    Some((bounds, half, via_half, starts, goals)) => {
                        let cls = bb.net_classes@[class_of(&bb, conn.net)->0];
                        let v = choose|v: (Seq<(Segment, LayerId)>, Seq<Point>)|
                            #[trigger] routes_to(&bb, conn, bounds, half, via_half, starts, goals, v) && {
                                &&& committed(&bb, board, conn.net, cls, v, nt0, nv0, full_span)
                                &&& next_track_id == id_after(nt0, v.0.len())
                                &&& next_via_id == id_after(nv0, v.1.len())
                            };
                        let nt_old = (bb.tracks@.len() - b0.tracks@.len()) as nat;
                        let nv_old = (bb.vias@.len() - b0.vias@.len()) as nat;
                        lemma_id_after_add(t0, nt_old, v.0.len());
                        lemma_id_after_add(v0, nv_old, v.1.len());
                        assert(board.tracks@.subrange(0, b0.tracks@.len() as int) =~= bb.tracks@.subrange(0, b0.tracks@.len() as int));
                        assert(board.vias@.subrange(0, b0.vias@.len() as int) =~= bb.vias@.subrange(0, b0.vias@.len() as int));
                        assert forall|jx: int| b0.tracks@.len() <= jx < board.tracks@.len() implies {
                            &&& (#[trigger] board.tracks@[jx]).id == TrackId(id_after(t0, (jx - b0.tracks@.len()) as nat))
                            &&& !board.tracks@[jx].locked
                            &&& attempted(&b0, board.tracks@[jx].net)
                        } by {
                            if jx >= bb.tracks@.len() {
                                lemma_id_after_add(t0, nt_old, (jx - bb.tracks@.len()) as nat);
                            } else {
                                assert(board.tracks@[jx] == bb.tracks@[jx]);
                            }
                        }
                        assert forall|jx: int| b0.vias@.len() <= jx < board.vias@.len() implies {
                            &&& (#[trigger] board.vias@[jx]).id == ViaId(id_after(v0, (jx - b0.vias@.len()) as nat))
                            &&& !board.vias@[jx].locked
                            &&& attempted(&b0, board.vias@[jx].net)
                            &&& board.vias@[jx].from_layer == full_span.0
                            &&& board.vias@[jx].to_layer == full_span.1
                        } by {
                            if jx >= bb.vias@.len() {
                                lemma_id_after_add(v0, nv_old, (jx - bb.vias@.len()) as nat);
                            } else {
                                assert(board.vias@[jx] == bb.vias@[jx]);
                            }
                        }
                    },
                    None => {},
                }
            }
        }
        proof {
            let ghost bs1 = bs.push(*board);
            let ghost ws1 = ws_g.push(wps@);
            assert(route_step(
                &bs1[c as int],
                &bs1[c + 1],
                all_connections@[c as int],
                ws1[c as int],
                ok,
                id_after(t0, (bs1[c as int].tracks@.len() - b0.tracks@.len()) as nat),
                id_after(v0, (bs1[c as int].vias@.len() - b0.vias@.len()) as nat),
                full_span,
            ));
            bs = bs1;
            ws_g = ws1;
        }
        let ghost oks0 = oks@;
        oks.push(ok);
        proof {
            assert forall|k: int|
                0 <= k < c + 1 implies #[trigger] route_step(
                    &bs[k],
                    &bs[k + 1],
                    all_connections@[k],
                    ws_g[k],
                    oks@[k],
                    id_after(t0, (bs[k].tracks@.len() - b0.tracks@.len()) as nat),
                    id_after(v0, (bs[k].vias@.len() - b0.vias@.len()) as nat),
                    full_span,
                ) by {
                if k < c {
                    assert(oks@[k] == oks0[k]);
                }
            }
        }
        c += 1;
    }
    proof {
        lemma_attempted_nets_distinct(&b0);
        assert(net_ids@ =~= attempted_nets(&b0));
    }
    let mut routed: usize = 0;
    let mut failed: Vec<NetId> = Vec::new();
    let mut start: usize = 0;
    let mut e: usize = 0;
    while e < net_ids.len()
        invariant
            e <= net_ids@.len(),
            edge_end@.len() == net_ids@.len(),
            oks@.len() == all_connections@.len(),
            forall|x: int| 0 <= x < edge_end@.len() ==> #[trigger] edge_end@[x] <= all_connections@.len(),
            forall|x: int| 0 <= x < net_ids@.len() ==> attempted(&b0, #[trigger] net_ids@[x]),
            routed + failed@.len() == e,
            routed <= e,
            start <= all_connections@.len(),
            forall|x: int| 0 <= x < failed@.len() ==> attempted(&b0, #[trigger] failed@[x]),
            net_ids@ == attempted_nets(&b0),
            route_groups(&b0, all_connections@, edge_end@),
            start == group_start(edge_end@, e as int),
            routed == routed_upto(oks@, edge_end@, e as int),
            failed@ == failed_upto(net_ids@, oks@, edge_end@, e as int),
            forall|a: int, b: int| 0 <= a < b < net_ids@.len() ==> net_ids@[a] != net_ids@[b],
            forall|x: int| 0 <= x < failed@.len() ==> exists|y: int| 0 <= y < e && #[trigger] net_ids@[y] == #[trigger] failed@[x],
            forall|a: int, b: int| 0 <= a < b < failed@.len() ==> failed@[a] != failed@[b],
        decreases net_ids@.len() - e,
    {
        let end = edge_end[e];
        let mut all_ok = true;
        let mut q: usize = start;
        proof {
            assert(group_start(edge_end@, e as int) <= edge_end@[e as int]);
        }
        while q < end
            invariant
                start <= q <= end,
                oks@.len() == all_connections@.len(),
                end <= all_connections@.len(),
                all_ok == (forall|x: int| start <= x < q ==> #[trigger] oks@[x]),
            decreases end - q,
        {
            if !oks[q] {
                all_ok = false;
            }
            q += 1;
        }
        proof {
            assert(all_ok == group_routed(oks@, edge_end@, e as int));
        }
        let ghost f0 = failed@;
        if all_ok {
            routed += 1;
        } else {
            failed.push(net_ids[e]);
            proof {
                assert forall|a: int, b: int| 0 <= a < b < failed@.len() implies failed@[a] != failed@[b] by {
                    if b == f0.len() {
                        assert(failed@[a] == f0[a]);
                        let y = choose|y: int| 0 <= y < e && #[trigger] net_ids@[y] == f0[a];
                        assert(net_ids@[y] != net_ids@[e as int]);
                    } else {
                        assert(failed@[a] == f0[a] && failed@[b] == f0[b]);
                    }
                }
                assert forall|x: int| 0 <= x < failed@.len() implies exists|y: int| 0 <= y < e + 1 && #[trigger] net_ids@[y] == #[trigger] failed@[x] by {
                    if x < f0.len() {
                        assert(failed@[x] == f0[x]);
                        let y = choose|y: int| 0 <= y < e && #[trigger] net_ids@[y] == f0[x];
                        assert(net_ids@[y] == failed@[x]);
                    } else {
                        assert(net_ids@[e as int] == failed@[x]);
                    }
                }
            }
        }
        start = end;
        e += 1;
    }
    proof {
        assert(bs.last() == *board);
        assert(route_trace(&b0, all_connections@, ws_g, bs, oks@));
        assert(route_groups(&b0, all_connections@, edge_end@));
        if coarse_ok(&b0, all_connections@) {
            let g = choose|g: GlobalGrid|
                #[trigger] coarse_shape(&g, &b0, all_connections@) && forall|i: int|
                    0 <= i < waypoints@.len() ==> coarse_answer(&g, &b0, all_connections@[i], (#[trigger] waypoints@[i])@);
            assert forall|k: int| 0 <= k < all_connections@.len() implies coarse_answer(&g, &b0, all_connections@[k], #[trigger] ws_g[k]) by {
                assert(ws_g[k] == waypoints@[k]@);
            }
            assert(negotiated_waypoints(&b0, all_connections@, waypoints@));
            assert forall|k: int| 0 <= k < ws_g.len() implies (#[trigger] waypoints@[k])@ == ws_g[k] by {
            }
        }
        assert(route_hints(&b0, all_connections@, ws_g));
    }
    RouteReport { routed, failed, skipped }
}

} // verus!
