//! The routing grid: cells, the local search window, and the per-layer
//! bitmap of cells a new track may not enter.

use vstd::prelude::*;

use crate::detail::obstacle::{margin_ok, shape_ok, spec_bbox, spec_shape_clears, Obstacle, ObstacleShape};
use crate::geom::point::Point;
use crate::model::board::{dim_ok, lemma_resolved_clearance_ok, spec_resolved_clearance, Board};
use crate::model::items::{LayerId, NetId};

verus! {

/// Grid cell size: 0.1 mm.
pub const CELL_NM: i64 = 100_000;

/// The clearance assumed when a net's class cannot be resolved: blocking
/// generously rather than routing through something real DRC would flag.
pub const FALLBACK_CLEARANCE_NM: i64 = 500_000;

#[derive(Debug, Clone, Copy, PartialEq, Eq, Structural, Hash)]
pub struct Cell {
    pub x: i32,
    pub y: i32,
}

/// The board point at the centre of `c`, relative to `origin`.
pub open spec fn cell_point(c: Cell, origin: Point) -> Point {
    Point { x: (origin.x + c.x * CELL_NM) as i64, y: (origin.y + c.y * CELL_NM) as i64 }
}

/// An offset small enough for cell rounding without overflow.
pub open spec fn offset_ok(v: int) -> bool {
    -4_000_000_000_000_000_000 <= v <= 4_000_000_000_000_000_000
}

/// `n / d` rounded to the nearest integer, halves away from zero.
pub open spec fn spec_round_div(n: int, d: int) -> int {
    if n >= 0 {
        (n + d / 2) / d
    } else {
        -((-n + d / 2) / d)
    }
}

/// `v` clamped into the range of `i32`.
pub open spec fn clamp_i32(v: int) -> i32 {
    (if v < i32::MIN {
        i32::MIN as int
    } else if v > i32::MAX {
        i32::MAX as int
    } else {
        v
    }) as i32
}

/// The cell nearest to `p`, relative to `origin`.
pub open spec fn spec_cell_of(p: Point, origin: Point) -> Cell {
    Cell {
        x: clamp_i32(spec_round_div(p.x - origin.x, CELL_NM as int)),
        y: clamp_i32(spec_round_div(p.y - origin.y, CELL_NM as int)),
    }
}

/// The centre of every cell of an `i32` grid around `origin` fits `i64`.
pub open spec fn origin_ok(origin: Point) -> bool {
    offset_ok(origin.x as int) && -2_000_000_000_000_000_000 <= origin.x <= 2_000_000_000_000_000_000
        && -2_000_000_000_000_000_000 <= origin.y <= 2_000_000_000_000_000_000
}

impl Cell {
    /// The board point at this cell's centre.
    pub fn to_point(self, origin: Point) -> (p: Point)
        requires
            origin_ok(origin),
        ensures
            p == cell_point(self, origin),
    {
        Point { x: origin.x + (self.x as i64) * CELL_NM, y: origin.y + (self.y as i64) * CELL_NM }
    }

    /// Snaps `point` to the nearest cell relative to `origin`, saturating
    /// at the `i32` range rather than wrapping.
    pub fn from_point(point: Point, origin: Point) -> (c: Cell)
        requires
            offset_ok(point.x - origin.x),
            offset_ok(point.y - origin.y),
        ensures
            c == spec_cell_of(point, origin),
    {
        Cell {
            x: round_div_saturating(point.x - origin.x, CELL_NM),
            y: round_div_saturating(point.y - origin.y, CELL_NM),
        }
    }
}

/// `numerator / denominator` rounded to the nearest integer (halves away
/// from zero), saturated to the `i32` range.
pub(crate) fn round_div_saturating(numerator: i64, denominator: i64) -> (r: i32)
    requires
        0 < denominator,
        offset_ok(numerator as int),
    ensures
        r == clamp_i32(spec_round_div(numerator as int, denominator as int)),
{
    let half = denominator / 2;
    let rounded = if numerator >= 0 {
        (numerator + half) / denominator
    } else {
        -((-numerator + half) / denominator)
    };
    if rounded < i32::MIN as i64 {
        i32::MIN
    } else if rounded > i32::MAX as i64 {
        i32::MAX
    } else {
        rounded as i32
    }
}

/// The local search window: `origin` is its lower-left corner, `width` and
/// `height` its extent in cells.
#[derive(Debug, Clone, Copy)]
pub struct GridBounds {
    pub origin: Point,
    pub width: i32,
    pub height: i32,
}

/// `i` is the first index of `l` among the first `n` entries of `s`.
pub open spec fn first_pos(s: Seq<LayerId>, l: LayerId, n: int) -> Option<int>
    decreases n,
{
    if n <= 0 {
        None
    } else {
        match first_pos(s, l, n - 1) {
            Some(i) => Some(i),
            None => if s[n - 1] == l {
                Some(n - 1)
            } else {
                None
            },
        }
    }
}

pub open spec fn layer_index_of(layers: Seq<LayerId>, l: LayerId) -> Option<int> {
    first_pos(layers, l, layers.len() as int)
}

/// How far new copper on `net` (of half-width `half`) must stay from the
/// obstacle's copper: the resolved clearance, or the fallback, plus `half`.
pub open spec fn required_nm(b: &Board, o: Obstacle, net: NetId, half: int) -> int {
    let c = match spec_resolved_clearance(b, o.net, net) {
        Some(c) => c,
        None => FALLBACK_CLEARANCE_NM as int,
    };
    c + half
}

/// `c` lies within the cells `lo..=hi` and its centre does not clear the
/// shape by `req` (a centre outside the coordinate range counts as not
/// clearing).
pub open spec fn cell_hit(shape: ObstacleShape, req: int, origin: Point, lo: Cell, hi: Cell, c: Cell) -> bool {
    let p = cell_point(c, origin);
    &&& lo.x <= c.x <= hi.x
    &&& lo.y <= c.y <= hi.y
    &&& !(p.in_range() && spec_shape_clears(shape, p, req))
}

/// Obstacle `o` blocks cell `c` on layer index `l` for a route on `net`:
/// it belongs to another net, lies on that layer, and `c` is hit within
/// its bounding box expanded by the required distance.
pub open spec fn obstacle_blocks(
    b: &Board,
    o: Obstacle,
    net: NetId,
    half: int,
    origin: Point,
    layers: Seq<LayerId>,
    c: Cell,
    l: int,
) -> bool {
    let req = required_nm(b, o, net, half);
    let bb = spec_bbox(o.shape, req);
    &&& o.net != net
    &&& layer_index_of(layers, o.layer) == Some(l)
    &&& cell_hit(o.shape, req, origin, spec_cell_of(bb.0, origin), spec_cell_of(bb.1, origin), c)
}

/// The flat bitmap index of `(c, l)` in a grid `w` cells wide with `nl`
/// layers.
pub open spec fn flat(c: Cell, l: int, w: int, nl: int) -> int {
    (c.y * w + c.x) * nl + l
}

pub open spec fn in_grid(c: Cell, l: int, w: int, h: int, nl: int) -> bool {
    0 <= c.x < w && 0 <= c.y < h && 0 <= l < nl
}

/// Some obstacle among the first `k` blocks `c` on layer index `l`.
pub open spec fn blocks_upto(
    b: &Board,
    obs: Seq<Obstacle>,
    net: NetId,
    half: int,
    origin: Point,
    layers: Seq<LayerId>,
    k: int,
    c: Cell,
    l: int,
) -> bool {
    exists|j: int| 0 <= j < k && #[trigger] obstacle_blocks(b, obs[j], net, half, origin, layers, c, l)
}

proof fn lemma_blocks_step(
    b: &Board,
    obs: Seq<Obstacle>,
    net: NetId,
    half: int,
    origin: Point,
    layers: Seq<LayerId>,
    k: int,
    c: Cell,
    l: int,
)
    requires
        0 <= k < obs.len(),
    ensures
        blocks_upto(b, obs, net, half, origin, layers, k + 1, c, l) == (blocks_upto(
            b,
            obs,
            net,
            half,
            origin,
            layers,
            k,
            c,
            l,
        ) || obstacle_blocks(b, obs[k], net, half, origin, layers, c, l)),
{
    if obstacle_blocks(b, obs[k], net, half, origin, layers, c, l) {
        assert(blocks_upto(b, obs, net, half, origin, layers, k + 1, c, l));
    }
    if blocks_upto(b, obs, net, half, origin, layers, k + 1, c, l) {
        let j = choose|j: int|
            0 <= j < k + 1 && #[trigger] obstacle_blocks(b, obs[j], net, half, origin, layers, c, l);
        if j < k {
            assert(blocks_upto(b, obs, net, half, origin, layers, k, c, l));
        }
    }
}

pub proof fn lemma_mixed_radix(a1: int, b1: int, a2: int, b2: int, n: int)
    by (nonlinear_arith)
    requires
        0 <= b1 < n,
        0 <= b2 < n,
        a1 >= 0,
        a2 >= 0,
        a1 * n + b1 == a2 * n + b2,
    ensures
        a1 == a2,
        b1 == b2,
{
    if a1 > a2 {
        assert(a1 * n >= (a2 + 1) * n);
    } else if a1 < a2 {
        assert(a2 * n >= (a1 + 1) * n);
    }
}

pub proof fn lemma_index_bound(x: int, y: int, l: int, w: int, h: int, n: int)
    by (nonlinear_arith)
    requires
        0 <= x < w,
        0 <= y < h,
        0 <= l < n,
    ensures
        0 <= (y * w + x) * n + l < w * h * n,
        0 <= y * w + x < w * h,
        0 <= y * w <= w * h,
        0 <= (y * w + x) * n <= w * h * n,
        w * h <= w * h * n,
{
    assert(y * w + x <= (h - 1) * w + (w - 1));
    assert((y * w + x) * n + l <= ((h - 1) * w + (w - 1)) * n + (n - 1));
}

/// `m` is the map `ObstacleMap::build` makes from these arguments: the
/// same window and layers, and exactly the cells some obstacle blocks.
pub open spec fn map_matches(
    m: &ObstacleMap,
    b: &Board,
    obs: Seq<Obstacle>,
    net: NetId,
    half: int,
    bounds: GridBounds,
    layers: Seq<LayerId>,
) -> bool {
    &&& m.spec_origin() == bounds.origin
    &&& m.spec_width() == bounds.width
    &&& m.spec_height() == bounds.height
    &&& m.spec_layer_count() == layers.len()
    &&& forall|c: Cell, l: int|
        #![trigger m.blocked_at(c, l)]
        m.spec_in_bounds(c) && 0 <= l < layers.len() ==> (m.blocked_at(c, l) <==> blocks_upto(
            b,
            obs,
            net,
            half,
            bounds.origin,
            layers,
            obs.len() as int,
            c,
            l,
        ))
}

/// Distinct in-window states have distinct flat indices, each within the
/// map's state count.
pub proof fn lemma_state_index(m: &ObstacleMap, c1: Cell, l1: int, c2: Cell, l2: int)
    requires
        m.spec_in_bounds(c1),
        m.spec_in_bounds(c2),
        0 <= l1 < m.spec_layer_count(),
        0 <= l2 < m.spec_layer_count(),
    ensures
        0 <= m.spec_index(c1, l1) < m.spec_width() * m.spec_height() * m.spec_layer_count(),
        m.spec_index(c1, l1) == m.spec_index(c2, l2) ==> c1 == c2 && l1 == l2,
{
    let w = m.spec_width();
    let h = m.spec_height();
    let n = m.spec_layer_count();
    lemma_index_bound(c1.x as int, c1.y as int, l1, w, h, n);
    lemma_index_bound(c2.x as int, c2.y as int, l2, w, h, n);
    if m.spec_index(c1, l1) == m.spec_index(c2, l2) {
        lemma_mixed_radix(c1.y * w + c1.x, l1, c2.y * w + c2.x, l2, n);
        lemma_mixed_radix(c1.y as int, c1.x as int, c2.y as int, c2.x as int, w);
    }
}

/// A per-layer bitmap of the cells of a search window that a new track on
/// one net may not enter. Obstacles of the routed net itself never block;
/// a cell is blocked where the obstacle's exact clearance predicate fails
/// at the cell's centre, the same predicate the DRC uses.
pub struct ObstacleMap {
    origin: Point,
    width: i32,
    height: i32,
    layer_count: usize,
    blocked: Vec<bool>,
}

impl ObstacleMap {
    #[verifier::type_invariant]
    spec fn wf(self) -> bool {
        &&& self.width >= 0
        &&& self.height >= 0
        &&& self.blocked@.len() == self.width * self.height * self.layer_count
    }

    pub closed spec fn spec_origin(&self) -> Point {
        self.origin
    }

    pub closed spec fn spec_width(&self) -> int {
        self.width as int
    }

    pub closed spec fn spec_height(&self) -> int {
        self.height as int
    }

    pub closed spec fn spec_layer_count(&self) -> int {
        self.layer_count as int
    }

    pub open spec fn spec_in_bounds(&self, c: Cell) -> bool {
        0 <= c.x < self.spec_width() && 0 <= c.y < self.spec_height()
    }

    /// The flat index of `(c, l)` in the bitmap.
    pub open spec fn spec_index(&self, c: Cell, l: int) -> int {
        (c.y * self.spec_width() + c.x) * self.spec_layer_count() + l
    }

    pub closed spec fn bit(&self, i: int) -> bool {
        self.blocked@[i]
    }

    /// A cell outside the window, or a layer index beyond the map's
    /// layers, counts as blocked.
    pub open spec fn blocked_at(&self, c: Cell, l: int) -> bool {
        !(self.spec_in_bounds(c) && 0 <= l < self.spec_layer_count()) || self.bit(
            self.spec_index(c, l),
        )
    }

    /// The number of (cell, layer) states of the map, with the facts that
    /// bound them.
    pub(crate) fn state_count(&self) -> (n: usize)
        ensures
            n == self.spec_width() * self.spec_height() * self.spec_layer_count(),
            0 <= self.spec_width() <= i32::MAX,
            0 <= self.spec_height() <= i32::MAX,
    {
        proof {
            use_type_invariant(self);
        }
        self.blocked.len()
    }

    /// The flat index of an in-window state.
    pub(crate) fn state_index(&self, cell: Cell, layer_index: usize) -> (i: usize)
        requires
            self.spec_in_bounds(cell),
            layer_index < self.spec_layer_count(),
        ensures
            i == self.spec_index(cell, layer_index as int),
            i < self.spec_width() * self.spec_height() * self.spec_layer_count(),
    {
        proof {
            use_type_invariant(self);
            lemma_index_bound(
                cell.x as int,
                cell.y as int,
                layer_index as int,
                self.width as int,
                self.height as int,
                self.layer_count as int,
            );
        }
        let _n = self.blocked.len();
        let planar = (cell.y as usize) * (self.width as usize) + (cell.x as usize);
        planar * self.layer_count + layer_index
    }

    /// Whether `cell` is blocked on `layer_index` (outside the window
    /// counts as blocked).
    pub fn is_blocked(&self, cell: Cell, layer_index: usize) -> (r: bool)
        ensures
            r == self.blocked_at(cell, layer_index as int),
    {
        proof {
            use_type_invariant(self);
        }
        if cell.x < 0 || cell.y < 0 || cell.x >= self.width || cell.y >= self.height
            || layer_index >= self.layer_count {
            return true;
        }
        let i = self.state_index(cell, layer_index);
        self.blocked[i]
    }

    pub fn in_bounds(&self, cell: Cell) -> (r: bool)
        ensures
            r == self.spec_in_bounds(cell),
    {
        cell.x >= 0 && cell.y >= 0 && cell.x < self.width && cell.y < self.height
    }

    pub fn layer_count(&self) -> (r: usize)
        ensures
            r == self.spec_layer_count(),
    {
        self.layer_count
    }

    /// Whether `cell` is blocked on any layer the map covers: the check
    /// for a through via, which occupies every layer.
    pub fn blocked_on_any_layer(&self, cell: Cell) -> (r: bool)
        ensures
            r == exists|l: int| 0 <= l < self.spec_layer_count() && #[trigger] self.blocked_at(cell, l),
    {
        let mut l: usize = 0;
        while l < self.layer_count
            invariant
                l <= self.spec_layer_count(),
                forall|k: int| 0 <= k < l ==> !#[trigger] self.blocked_at(cell, k),
            decreases self.spec_layer_count() - l,
        {
            if self.is_blocked(cell, l) {
                return true;
            }
            l += 1;
        }
        false
    }

    pub fn origin(&self) -> (r: Point)
        ensures
            r == self.spec_origin(),
    {
        self.origin
    }

    /// Builds the blocked-cell bitmap for a route on `routed_net` whose
    /// copper extends `route_half_width_nm` from its centre line; `layers`
    /// gives the layer each layer index stands for. An obstacle on a layer
    /// not in `layers` is ignored; one whose clearance cannot be resolved
    /// uses the fallback clearance.
    pub fn build(
        board: &Board,
        obstacles: &[Obstacle],
        routed_net: NetId,
        route_half_width_nm: i64,
        bounds: GridBounds,
        layers: &[LayerId],
    ) -> (m: ObstacleMap)
        requires
            board.geometry_valid(),
            forall|k: int| 0 <= k < obstacles@.len() ==> shape_ok(#[trigger] obstacles@[k].shape),
            dim_ok(route_half_width_nm as int),
            bounds.width >= 0,
            bounds.height >= 0,
            bounds.width * bounds.height <= usize::MAX,
            bounds.width * bounds.height * layers@.len() <= usize::MAX,
            bounds.origin.in_range() || (-2_000_000_000 <= bounds.origin.x <= 2_000_000_000
                && -2_000_000_000 <= bounds.origin.y <= 2_000_000_000),
        ensures
            map_matches(&m, board, obstacles@, routed_net, route_half_width_nm as int, bounds, layers@),
    {
        let origin = bounds.origin;
        let width = bounds.width;
        let height = bounds.height;
        let layer_count = layers.len();
        let total = (width as usize) * (height as usize) * layer_count;
        let mut blocked: Vec<bool> = Vec::new();
        while blocked.len() < total
            invariant
                blocked@.len() <= total,
                forall|i: int| 0 <= i < blocked@.len() ==> !blocked@[i],
            decreases total - blocked@.len(),
        {
            blocked.push(false);
        }
        let ghost obs = obstacles@;
        let ghost half = route_half_width_nm as int;
        let ghost ls = layers@;
        let ghost w = width as int;
        let ghost h = height as int;
        let ghost nl = layer_count as int;
        proof {
            assert forall|c: Cell, l: int| #![trigger flat(c, l, w, nl)] in_grid(c, l, w, h, nl) implies !blocked@[flat(c, l, w, nl)] && !blocks_upto(
                board,
                obs,
                routed_net,
                half,
                origin,
                ls,
                0,
                c,
                l,
            ) by {
                lemma_index_bound(c.x as int, c.y as int, l, w, h, nl);
            }
        }
        let mut k: usize = 0;
        while k < obstacles.len()
            invariant
                k <= obs.len(),
                obs == obstacles@,
                ls == layers@,
                board.geometry_valid(),
                forall|j: int| 0 <= j < obs.len() ==> shape_ok(#[trigger] obs[j].shape),
                dim_ok(half),
                half == route_half_width_nm,
                w == width,
                h == height,
                nl == layer_count,
                nl == ls.len(),
                w >= 0,
                h >= 0,
                total == w * h * nl,
                w * h * nl <= usize::MAX,
                blocked@.len() == total,
                origin == bounds.origin,
                -2_000_000_000 <= origin.x <= 2_000_000_000,
                -2_000_000_000 <= origin.y <= 2_000_000_000,
                forall|c: Cell, l: int|
                    #![trigger flat(c, l, w, nl)]
                    in_grid(c, l, w, h, nl) ==> blocked@[flat(c, l, w, nl)] == blocks_upto(
                        board,
                        obs,
                        routed_net,
                        half,
                        origin,
                        ls,
                        k as int,
                        c,
                        l,
                    ),
            decreases obs.len() - k,
        {
            let obstacle = obstacles[k];
            let ghost before = blocked@;
            proof {
                assert forall|c: Cell, l: int| #![trigger flat(c, l, w, nl)] in_grid(c, l, w, h, nl) implies blocks_upto(
                    board,
                    obs,
                    routed_net,
                    half,
                    origin,
                    ls,
                    k + 1,
                    c,
                    l,
                ) == (blocks_upto(board, obs, routed_net, half, origin, ls, k as int, c, l)
                    || obstacle_blocks(board, obs[k as int], routed_net, half, origin, ls, c, l)) by {
                    lemma_blocks_step(board, obs, routed_net, half, origin, ls, k as int, c, l);
                }
            }
            if obstacle.net != routed_net {
                let mut li: usize = 0;
                while li < layer_count && layers[li] != obstacle.layer
                    invariant
                        li <= layer_count,
                        layer_count == ls.len(),
                        ls == layers@,
                        first_pos(ls, obstacle.layer, li as int).is_none(),
                    decreases layer_count - li,
                {
                    li += 1;
                }
                if li < layer_count {
                    proof {
                        assert(first_pos(ls, obstacle.layer, li + 1) == Some(li as int));
                        lemma_first_pos_stable(ls, obstacle.layer, li + 1, ls.len() as int);
                        lemma_resolved_clearance_ok(board, obstacle.net, routed_net);
                    }
                    let clearance_nm = match board.resolved_clearance_nm(obstacle.net, routed_net) {
                        Some(c) => c,
                        None => FALLBACK_CLEARANCE_NM,
                    };
                    let required = clearance_nm + route_half_width_nm;
                    let (min_pt, max_pt) = obstacle.shape.bounding_box(required);
                    let min_cell = Cell::from_point(min_pt, origin);
                    let max_cell = Cell::from_point(max_pt, origin);
                    mark_cells(
                        &mut blocked,
                        width,
                        height,
                        layer_count,
                        li,
                        obstacle.shape,
                        required,
                        origin,
                        min_cell,
                        max_cell,
                    );
                    proof {
                        assert forall|c: Cell, l: int| #![trigger flat(c, l, w, nl)] in_grid(c, l, w, h, nl) implies blocked@[flat(c, l, w, nl)]
                            == blocks_upto(board, obs, routed_net, half, origin, ls, k + 1, c, l) by {
                            if obstacle_blocks(board, obs[k as int], routed_net, half, origin, ls, c, l) {
                                assert(l == li);
                            }
                        }
                    }
                } else {
                    proof {
                        assert(layer_index_of(ls, obstacle.layer).is_none());
                    }
                }
            }
            k += 1;
        }
        let m = ObstacleMap { origin, width, height, layer_count, blocked };
        proof {
            assert forall|c: Cell, l: int|
                #![trigger m.blocked_at(c, l)]
                m.spec_in_bounds(c) && 0 <= l < layers@.len() implies (m.blocked_at(c, l) <==> blocks_upto(
                board,
                obstacles@,
                routed_net,
                route_half_width_nm as int,
                bounds.origin,
                layers@,
                obstacles@.len() as int,
                c,
                l,
            )) by {
                assert(in_grid(c, l, w, h, nl));
                assert(m.spec_index(c, l) == flat(c, l, w, nl));
            }
        }
        m
    }
}

/// Marks every in-grid cell of rows `lo.y..=hi.y` (clipped to the grid)
/// that `cell_hit` on layer index `li`.
fn mark_cells(
    blocked: &mut Vec<bool>,
    width: i32,
    height: i32,
    layer_count: usize,
    li: usize,
    shape: ObstacleShape,
    required: i64,
    origin: Point,
    lo: Cell,
    hi: Cell,
)
    requires
        width >= 0,
        height >= 0,
        li < layer_count,
        width * height * layer_count <= usize::MAX,
        old(blocked)@.len() == width * height * layer_count,
        shape_ok(shape),
        margin_ok(required as int),
        -2_000_000_000 <= origin.x <= 2_000_000_000,
        -2_000_000_000 <= origin.y <= 2_000_000_000,
    ensures
        final(blocked)@.len() == old(blocked)@.len(),
        forall|c: Cell, l: int|
            #![trigger flat(c, l, width as int, layer_count as int)]
            in_grid(c, l, width as int, height as int, layer_count as int) ==> final(blocked)@[flat(
                c,
                l,
                width as int,
                layer_count as int,
            )] == (old(blocked)@[flat(c, l, width as int, layer_count as int)] || (l == li
                && cell_hit(shape, required as int, origin, lo, hi, c))),
{
    let ghost w = width as int;
    let ghost h = height as int;
    let ghost nl = layer_count as int;
    let ghost before = blocked@;
    let y0: i64 = if lo.y > 0 { lo.y as i64 } else { 0 };
    let y1: i64 = if (hi.y as i64) < (height as i64) - 1 { hi.y as i64 } else { (height as i64) - 1 };
    let x0: i64 = if lo.x > 0 { lo.x as i64 } else { 0 };
    let x1: i64 = if (hi.x as i64) < (width as i64) - 1 { hi.x as i64 } else { (width as i64) - 1 };
    let mut cy: i64 = y0;
    while cy <= y1
        invariant
            y0 <= cy,
            cy <= y1 + 1 || y0 > y1,
            y0 >= 0,
            y1 < h,
            y0 == (if lo.y > 0 { lo.y as int } else { 0 }),
            y1 == (if hi.y < h - 1 { hi.y as int } else { h - 1 }),
            x0 == (if lo.x > 0 { lo.x as int } else { 0 }),
            x1 == (if hi.x < w - 1 { hi.x as int } else { w - 1 }),
            li < nl,
            w == width,
            h == height,
            nl == layer_count,
            w >= 0,
            h >= 0,
            blocked@.len() == w * h * nl,
            w * h * nl <= usize::MAX,
            shape_ok(shape),
            margin_ok(required as int),
            -2_000_000_000 <= origin.x <= 2_000_000_000,
            -2_000_000_000 <= origin.y <= 2_000_000_000,
            forall|c: Cell, l: int|
                #![trigger flat(c, l, w, nl)]
                in_grid(c, l, w, h, nl) ==> blocked@[flat(c, l, w, nl)] == (before[flat(c, l, w, nl)]
                    || (l == li && c.y < cy && cell_hit(shape, required as int, origin, lo, hi, c))),
        decreases y1 + 1 - cy,
    {
        mark_row(blocked, width, height, layer_count, li, shape, required, origin, lo, hi, cy, x0, x1);
        cy += 1;
    }
}

/// Marks the cells `x0..=x1` of row `cy` that `cell_hit` on layer index
/// `li`.
fn mark_row(
    blocked: &mut Vec<bool>,
    width: i32,
    height: i32,
    layer_count: usize,
    li: usize,
    shape: ObstacleShape,
    required: i64,
    origin: Point,
    lo: Cell,
    hi: Cell,
    cy: i64,
    x0: i64,
    x1: i64,
)
    requires
        width >= 0,
        height >= 0,
        li < layer_count,
        0 <= cy < height,
        width * height * layer_count <= usize::MAX,
        lo.y <= cy <= hi.y,
        x0 == (if lo.x > 0 { lo.x as int } else { 0 }),
        x1 == (if hi.x < width - 1 { hi.x as int } else { width - 1 }),
        old(blocked)@.len() == width * height * layer_count,
        shape_ok(shape),
        margin_ok(required as int),
        -2_000_000_000 <= origin.x <= 2_000_000_000,
        -2_000_000_000 <= origin.y <= 2_000_000_000,
    ensures
        final(blocked)@.len() == old(blocked)@.len(),
        forall|c: Cell, l: int|
            #![trigger flat(c, l, width as int, layer_count as int)]
            in_grid(c, l, width as int, height as int, layer_count as int) ==> final(blocked)@[flat(
                c,
                l,
                width as int,
                layer_count as int,
            )] == (old(blocked)@[flat(c, l, width as int, layer_count as int)] || (l == li
                && c.y == cy && cell_hit(shape, required as int, origin, lo, hi, c))),
{
    let ghost w = width as int;
    let ghost h = height as int;
    let ghost nl = layer_count as int;
    let ghost before = blocked@;
    let mut cx: i64 = x0;
    while cx <= x1
        invariant
            x0 <= cx,
            cx <= x1 + 1 || x0 > x1,
            x0 >= 0,
            x1 < w,
            x0 == (if lo.x > 0 { lo.x as int } else { 0 }),
            x1 == (if hi.x < w - 1 { hi.x as int } else { w - 1 }),
            0 <= cy < h,
            lo.y <= cy <= hi.y,
            li < nl,
            w == width,
            h == height,
            nl == layer_count,
            w >= 0,
            h >= 0,
            blocked@.len() == w * h * nl,
            w * h * nl <= usize::MAX,
            shape_ok(shape),
            margin_ok(required as int),
            -2_000_000_000 <= origin.x <= 2_000_000_000,
            -2_000_000_000 <= origin.y <= 2_000_000_000,
            forall|c: Cell, l: int|
                #![trigger flat(c, l, w, nl)]
                in_grid(c, l, w, h, nl) ==> blocked@[flat(c, l, w, nl)] == (before[flat(c, l, w, nl)]
                    || (l == li && c.y == cy && c.x < cx && cell_hit(shape, required as int, origin, lo, hi, c))),
        decreases x1 + 1 - cx,
    {
        let cell = Cell { x: cx as i32, y: cy as i32 };
        let point = cell.to_point(origin);
        let clear = if point.x >= -1_000_000_000 && point.x <= 1_000_000_000 && point.y
            >= -1_000_000_000 && point.y <= 1_000_000_000 {
            shape.clears_point(point, required)
        } else {
            false
        };
        let ghost pre = blocked@;
        if !clear {
            proof {
                lemma_index_bound(cx as int, cy as int, li as int, w, h, nl);
            }
            let planar = (cy as usize) * (width as usize) + (cx as usize);
            let i = planar * layer_count + li;
            blocked.set(i, true);
            proof {
                assert(cell_hit(shape, required as int, origin, lo, hi, cell));
                assert forall|c: Cell, l: int| #![trigger flat(c, l, w, nl)] in_grid(c, l, w, h, nl) implies blocked@[flat(
                    c,
                    l,
                    w,
                    nl,
                )] == (before[flat(c, l, w, nl)] || (l == li && c.y == cy && c.x < cx + 1
                    && cell_hit(shape, required as int, origin, lo, hi, c))) by {
                    lemma_index_bound(c.x as int, c.y as int, l, w, h, nl);
                    if flat(c, l, w, nl) == i {
                        lemma_mixed_radix(c.y * w + c.x, l, cy * w + cx, li as int, nl);
                        lemma_mixed_radix(c.y as int, c.x as int, cy as int, cx as int, w);
                    } else if l == li && c.y == cy && c.x == cx {
                        assert(flat(c, l, w, nl) == i);
                    }
                }
            }
        } else {
            proof {
                assert(!cell_hit(shape, required as int, origin, lo, hi, cell));
                assert forall|c: Cell, l: int| #![trigger flat(c, l, w, nl)] in_grid(c, l, w, h, nl) implies blocked@[flat(
                    c,
                    l,
                    w,
                    nl,
                )] == (before[flat(c, l, w, nl)] || (l == li && c.y == cy && c.x < cx + 1
                    && cell_hit(shape, required as int, origin, lo, hi, c))) by {
                    if l == li && c.y == cy && c.x == cx {
                        assert(c == cell);
                    }
                }
            }
        }
        cx += 1;
    }
}

/// The index found for a layer is the first position holding it, and no
/// index is found exactly when the layer is not in the list.
pub proof fn lemma_layer_index_of(s: Seq<LayerId>, l: LayerId)
    ensures
        layer_index_of(s, l) matches Some(i) ==> 0 <= i < s.len() && s[i] == l && forall|j: int| 0 <= j < i ==> s[j] != l,
        layer_index_of(s, l) is None <==> !s.contains(l),
{
    lemma_first_pos(s, l, s.len() as int);
}

proof fn lemma_first_pos(s: Seq<LayerId>, l: LayerId, n: int)
    requires
        0 <= n <= s.len(),
    ensures
        first_pos(s, l, n) matches Some(i) ==> 0 <= i < n && s[i] == l && forall|j: int| 0 <= j < i ==> s[j] != l,
        first_pos(s, l, n) is None ==> forall|j: int| 0 <= j < n ==> s[j] != l,
    decreases n,
{
    if n > 0 {
        lemma_first_pos(s, l, n - 1);
    }
}

pub proof fn lemma_first_pos_stable(s: Seq<LayerId>, l: LayerId, n: int, m: int)
    requires
        0 <= n <= m <= s.len(),
        first_pos(s, l, n).is_some(),
    ensures
        first_pos(s, l, m) == first_pos(s, l, n),
    decreases m - n,
{
    if m > n {
        lemma_first_pos_stable(s, l, n, m - 1);
    }
}

} // verus!
