//! PathFinder negotiated congestion (McMurchie & Ebeling) over a coarse
//! global-routing grid: each round routes every net in order by Dijkstra
//! over a congestion-aware cost, with usage updating live within the
//! round; after a round, edges over capacity accumulate history cost and
//! the present-congestion penalty sharpens. Stops once no edge is over
//! capacity.
//!
//! The grid tracks a flat per-layer edge capacity, reduced where fixed
//! board copper obstructs a cell; layer changes have unlimited capacity.
//!
//! Costs are exact integers: in round `k` every edge cost is scaled by
//! `2^k`, so the present factor `1.5^k` becomes `3^k`, and each edge cost
//! is capped at `2^63` so path costs stay within `u128`.

use vstd::prelude::*;

use crate::detail::astar::{count_true, lemma_count_bound, lemma_count_update, lemma_count_zero};
use crate::detail::grid::{
    clamp_i32, lemma_index_bound, lemma_mixed_radix, offset_ok, round_div_saturating,
    spec_round_div,
};
use crate::geom::point::{fits_i64, Point};

verus! {

#[derive(Debug, Clone, Copy, PartialEq, Eq, Structural, Hash, PartialOrd, Ord)]
pub struct GCell {
    pub x: i32,
    pub y: i32,
    pub layer: usize,
}

/// The coarse global-routing grid: board-wide extent, per-layer edge
/// capacity, and per-cell obstruction (indexed like `cell_index`; a
/// missing entry means no obstruction).
#[derive(Debug, Clone)]
pub struct GlobalGrid {
    pub origin: Point,
    pub cell_size_nm: i64,
    pub width: i32,
    pub height: i32,
    /// How many tracks' worth of pitch fit across one G-cell edge, per
    /// layer index.
    pub layer_capacity: Vec<i64>,
    /// Capacity consumed at each cell by fixed copper.
    pub obstruction: Vec<i64>,
}

pub open spec fn g_layers(g: &GlobalGrid) -> int {
    g.layer_capacity@.len() as int
}

pub open spec fn g_in_bounds(g: &GlobalGrid, c: GCell) -> bool {
    0 <= c.x < g.width && 0 <= c.y < g.height && c.layer < g_layers(g)
}

/// The flat index of an in-bounds cell.
pub open spec fn g_index(g: &GlobalGrid, c: GCell) -> int {
    (c.y * g.width + c.x) * g_layers(g) + c.layer
}

/// The number of cells of the grid.
pub open spec fn g_size(g: &GlobalGrid) -> int {
    (if g.width > 0 {
        g.width as int
    } else {
        0
    }) * (if g.height > 0 {
        g.height as int
    } else {
        0
    }) * g_layers(g)
}

/// The cell nearest to `p` on layer `layer`.
pub open spec fn spec_gcell_of(g: &GlobalGrid, p: Point, layer: usize) -> GCell {
    GCell {
        x: clamp_i32(spec_round_div(p.x - g.origin.x, g.cell_size_nm as int)),
        y: clamp_i32(spec_round_div(p.y - g.origin.y, g.cell_size_nm as int)),
        layer,
    }
}

/// The capacity consumed at `c` by fixed copper.
pub open spec fn obstruction_at(g: &GlobalGrid, c: GCell) -> int {
    if g_in_bounds(g, c) && g_index(g, c) < g.obstruction@.len() {
        g.obstruction@[g_index(g, c)] as int
    } else {
        0
    }
}

pub open spec fn clamp_i64(v: int) -> int {
    if v < i64::MIN {
        i64::MIN as int
    } else if v > i64::MAX {
        i64::MAX as int
    } else {
        v
    }
}

/// The capacity of the edge between `a` and `b`: on one layer, that
/// layer's capacity less the larger obstruction of its two cells (none
/// below zero); a layer change is unlimited.
pub open spec fn spec_capacity(g: &GlobalGrid, a: GCell, b: GCell) -> int {
    if a.layer == b.layer {
        let base: int = if a.layer < g_layers(g) {
            g.layer_capacity@[a.layer as int] as int
        } else {
            0
        };
        let oa = obstruction_at(g, a);
        let ob = obstruction_at(g, b);
        let reduction: int = if oa >= ob && oa > 0 {
            oa
        } else if ob > 0 {
            ob
        } else {
            0
        };
        clamp_i64(base - reduction)
    } else {
        i64::MAX as int
    }
}

/// One step of a global path: to a 4-neighbour in bounds on the same
/// layer, or to another layer at the same cell.
pub open spec fn g_move(g: &GlobalGrid, a: GCell, b: GCell) -> bool {
    &&& g_in_bounds(g, a)
    &&& {
        ||| (b.layer == a.layer && g_in_bounds(g, b) && ((b.x == a.x + 1 && b.y == a.y) || (b.x == a.x
            - 1 && b.y == a.y) || (b.x == a.x && b.y == a.y + 1) || (b.x == a.x && b.y == a.y - 1)))
        ||| (b.x == a.x && b.y == a.y && b.layer != a.layer && b.layer < g_layers(g))
    }
}

/// How far `a` is from `b` in moves: the cell distance, plus one for a
/// change of layer.
pub open spec fn move_distance(a: GCell, b: GCell) -> nat {
    ((if a.x <= b.x { b.x - a.x } else { a.x - b.x }) + (if a.y <= b.y { b.y - a.y } else { a.y - b.y }) + (if a.layer
        == b.layer {
        0int
    } else {
        1int
    })) as nat
}

/// A path from `a` to `b`: first onto `b`'s layer, then along x, then
/// along y.
pub open spec fn straight_path(a: GCell, b: GCell) -> Seq<GCell>
    decreases move_distance(a, b),
{
    if a.layer != b.layer {
        seq![a] + straight_path(GCell { layer: b.layer, ..a }, b)
    } else if a.x < b.x {
        seq![a] + straight_path(GCell { x: (a.x + 1) as i32, ..a }, b)
    } else if a.x > b.x {
        seq![a] + straight_path(GCell { x: (a.x - 1) as i32, ..a }, b)
    } else if a.y < b.y {
        seq![a] + straight_path(GCell { y: (a.y + 1) as i32, ..a }, b)
    } else if a.y > b.y {
        seq![a] + straight_path(GCell { y: (a.y - 1) as i32, ..a }, b)
    } else {
        seq![a]
    }
}

proof fn lemma_straight_path(g: &GlobalGrid, a: GCell, b: GCell)
    requires
        g_in_bounds(g, a),
        g_in_bounds(g, b),
    ensures
        straight_path(a, b).len() >= 1,
        straight_path(a, b)[0] == a,
        straight_path(a, b).last() == b,
        forall|i: int| 0 <= i < straight_path(a, b).len() - 1 ==> g_move(g, #[trigger] straight_path(a, b)[i], straight_path(a, b)[i + 1]),
    decreases move_distance(a, b),
{
    let p = straight_path(a, b);
    let n: GCell = if a.layer != b.layer {
        GCell { layer: b.layer, ..a }
    } else if a.x < b.x {
        GCell { x: (a.x + 1) as i32, ..a }
    } else if a.x > b.x {
        GCell { x: (a.x - 1) as i32, ..a }
    } else if a.y < b.y {
        GCell { y: (a.y + 1) as i32, ..a }
    } else {
        GCell { y: (a.y - 1) as i32, ..a }
    };
    if a != b {
        lemma_straight_path(g, n, b);
        let q = straight_path(n, b);
        assert(p == seq![a] + q);
        assert(g_move(g, a, n));
        assert forall|i: int| 0 <= i < p.len() - 1 implies g_move(g, #[trigger] p[i], p[i + 1]) by {
            if i == 0 {
                assert(p[0] == a && p[1] == q[0]);
            } else {
                assert(p[i] == q[i - 1] && p[i + 1] == q[i]);
            }
        }
    }
}

/// Any cell of the grid reaches any other by moves of the grid, changing
/// layer in either direction where needed.
pub proof fn lemma_grid_connected(g: &GlobalGrid, a: GCell, b: GCell)
    requires
        g_in_bounds(g, a),
        g_in_bounds(g, b),
    ensures
        exists|p: Seq<GCell>|
            p.len() >= 1 && p[0] == a && p.last() == b && forall|i: int| 0 <= i < p.len() - 1 ==> g_move(g, #[trigger] p[i], p[i + 1]),
{
    lemma_straight_path(g, a, b);
    let p = straight_path(a, b);
    assert(p.len() >= 1 && p[0] == a && p.last() == b && forall|i: int| 0 <= i < p.len() - 1 ==> g_move(g, #[trigger] p[i], p[i + 1]));
}

/// Negotiation never gives up on a request with an in-bounds start and
/// an in-bounds goal: whatever the layers of the two, some coarse path
/// joins them, so its answer (`paths_answer`, as `negotiate` ensures) is a
/// path.
pub proof fn lemma_every_reachable_request_routed(g: &GlobalGrid, requests: Seq<NetRequest>, paths: Seq<Option<Vec<GCell>>>)
    requires
        paths_answer(g, requests, paths),
    ensures
        forall|k: int|
            0 <= k < requests.len() && (exists|s: GCell, t: GCell|
                g_in_bounds(g, s) && g_in_bounds(g, t) && requests[k].starts@.contains(s) && requests[k].goals@.contains(t))
                ==> (#[trigger] paths[k]) is Some,
{
    assert forall|k: int|
        0 <= k < requests.len() && (exists|s: GCell, t: GCell|
            g_in_bounds(g, s) && g_in_bounds(g, t) && requests[k].starts@.contains(s) && requests[k].goals@.contains(t))
            implies (#[trigger] paths[k]) is Some by {
        let (s, t) = choose|s: GCell, t: GCell|
            g_in_bounds(g, s) && g_in_bounds(g, t) && requests[k].starts@.contains(s) && requests[k].goals@.contains(t);
        lemma_straight_path(g, s, t);
        let p = straight_path(s, t);
        assert(valid_gpath(g, requests[k].starts@, requests[k].goals@, p));
    }
}

/// `p` leads by moves of the grid from an in-bounds start to a goal.
pub open spec fn valid_gpath(g: &GlobalGrid, starts: Seq<GCell>, goals: Seq<GCell>, p: Seq<GCell>) -> bool {
    &&& p.len() >= 1
    &&& g_in_bounds(g, p[0])
    &&& starts.contains(p[0])
    &&& goals.contains(p.last())
    &&& forall|i: int| 0 <= i < p.len() - 1 ==> g_move(g, #[trigger] p[i], p[i + 1])
}

impl GlobalGrid {
    /// The cell nearest to `point` on layer `layer`.
    pub fn cell_of(&self, point: Point, layer: usize) -> (c: GCell)
        requires
            self.cell_size_nm > 0,
            offset_ok(point.x - self.origin.x),
            offset_ok(point.y - self.origin.y),
        ensures
            c == spec_gcell_of(self, point, layer),
    {
        GCell {
            x: round_div_saturating(point.x - self.origin.x, self.cell_size_nm),
            y: round_div_saturating(point.y - self.origin.y, self.cell_size_nm),
            layer,
        }
    }

    /// The board point at the centre of `cell`.
    pub fn point_of(&self, cell: GCell) -> (p: Point)
        requires
            fits_i64(cell.x * self.cell_size_nm),
            fits_i64(cell.y * self.cell_size_nm),
            fits_i64(self.origin.x + cell.x * self.cell_size_nm),
            fits_i64(self.origin.y + cell.y * self.cell_size_nm),
        ensures
            p.x == self.origin.x + cell.x * self.cell_size_nm,
            p.y == self.origin.y + cell.y * self.cell_size_nm,
    {
        Point {
            x: self.origin.x + (cell.x as i64) * self.cell_size_nm,
            y: self.origin.y + (cell.y as i64) * self.cell_size_nm,
        }
    }

    pub(crate) fn in_bounds(&self, cell: GCell) -> (r: bool)
        ensures
            r == g_in_bounds(self, cell),
    {
        cell.x >= 0 && cell.y >= 0 && cell.x < self.width && cell.y < self.height && cell.layer
            < self.layer_capacity.len()
    }

    /// The flat index of `cell`, `None` outside the grid.
    pub fn cell_index(&self, cell: GCell) -> (r: Option<usize>)
        requires
            g_size(self) <= usize::MAX,
        ensures
            match r {
                Some(i) => g_in_bounds(self, cell) && i == g_index(self, cell) && i < g_size(self),
                None => !g_in_bounds(self, cell),
            },
    {
        if !self.in_bounds(cell) {
            return None;
        }
        proof {
            lemma_index_bound(
                cell.x as int,
                cell.y as int,
                cell.layer as int,
                self.width as int,
                self.height as int,
                g_layers(self),
            );
        }
        let planar = (cell.y as usize) * (self.width as usize) + (cell.x as usize);
        Some(planar * self.layer_capacity.len() + cell.layer)
    }

    fn obstruction_of(&self, cell: GCell) -> (r: i64)
        requires
            g_size(self) <= usize::MAX,
        ensures
            r == obstruction_at(self, cell),
    {
        match self.cell_index(cell) {
            Some(i) => if i < self.obstruction.len() {
                self.obstruction[i]
            } else {
                0
            },
            None => 0,
        }
    }

    /// The capacity of the edge between `a` and `b` (see `spec_capacity`).
    fn capacity(&self, a: GCell, b: GCell) -> (r: i64)
        requires
            g_size(self) <= usize::MAX,
        ensures
            r == spec_capacity(self, a, b),
    {
        if a.layer != b.layer {
            return i64::MAX;
        }
        let base: i64 = if a.layer < self.layer_capacity.len() {
            self.layer_capacity[a.layer]
        } else {
            0
        };
        let oa = self.obstruction_of(a);
        let ob = self.obstruction_of(b);
        let reduction: i64 = if oa >= ob && oa > 0 {
            oa
        } else if ob > 0 {
            ob
        } else {
            0
        };
        let v = (base as i128) - (reduction as i128);
        if v < i64::MIN as i128 {
            i64::MIN
        } else if v > i64::MAX as i128 {
            i64::MAX
        } else {
            v as i64
        }
    }
}


/// A single net's request: candidate start and goal cells (a pin reachable
/// on several layers offers several).
#[derive(Debug, Clone)]
pub struct NetRequest {
    pub starts: Vec<GCell>,
    pub goals: Vec<GCell>,
}

/// One net's path through the grid, in cell order.
pub type GlobalPath = Vec<GCell>;

/// The result of a negotiation run: each net's last path (in request
/// order; `None` only when no path exists at all), whether the run
/// converged, and every edge still over capacity when it ended as
/// `(from, to, usage, capacity)`.
#[derive(Debug, Clone)]
pub struct NegotiationResult {
    pub paths: Vec<Option<GlobalPath>>,
    pub converged: bool,
    pub overused_edges: Vec<(GCell, GCell, i64, i64)>,
}

pub const BASE_EDGE_COST: u128 = 100;

pub const HISTORY_INCREMENT: i64 = 50;

/// The cap on one edge's cost, which keeps path costs within `u128`.
pub const EDGE_COST_CAP: u128 = 0x8000_0000_0000_0000;

/// The usage slot of a step along one layer: the edge's lower (left or
/// bottom) cell's index, times two, plus one for a vertical edge; `None`
/// for a layer change.
pub open spec fn step_slot(g: &GlobalGrid, a: GCell, b: GCell) -> Option<int> {
    if a.layer == b.layer && b.x == a.x + 1 && b.y == a.y {
        Some(g_index(g, a) * 2)
    } else if a.layer == b.layer && b.x == a.x - 1 && b.y == a.y {
        Some(g_index(g, b) * 2)
    } else if a.layer == b.layer && b.x == a.x && b.y == a.y + 1 {
        Some(g_index(g, a) * 2 + 1)
    } else if a.layer == b.layer && b.x == a.x && b.y == a.y - 1 {
        Some(g_index(g, b) * 2 + 1)
    } else {
        None
    }
}

fn slot_of(g: &GlobalGrid, a: GCell, b: GCell) -> (r: Option<usize>)
    requires
        g_size(g) <= usize::MAX,
        2 * g_size(g) <= usize::MAX,
        g_move(g, a, b),
    ensures
        match (r, step_slot(g, a, b)) {
            (Some(i), Some(s)) => i == s && 0 <= s < 2 * g_size(g),
            (None, None) => true,
            _ => false,
        },
{
    proof {
        lemma_g_index(g, a, a);
        if g_in_bounds(g, b) {
            lemma_g_index(g, b, b);
        }
    }
    if a.layer == b.layer && b.x == a.x + 1 && b.y == a.y {
        Some(g_index_of(g, a) * 2)
    } else if a.layer == b.layer && b.x == a.x - 1 && b.y == a.y {
        Some(g_index_of(g, b) * 2)
    } else if a.layer == b.layer && b.x == a.x && b.y == a.y + 1 {
        Some(g_index_of(g, a) * 2 + 1)
    } else if a.layer == b.layer && b.x == a.x && b.y == a.y - 1 {
        Some(g_index_of(g, b) * 2 + 1)
    } else {
        None
    }
}

fn g_index_of(g: &GlobalGrid, c: GCell) -> (i: usize)
    requires
        g_size(g) <= usize::MAX,
        g_in_bounds(g, c),
    ensures
        i == g_index(g, c),
        i < g_size(g),
{
    match g.cell_index(c) {
        Some(i) => i,
        None => 0,
    }
}

fn sat_mul(a: u128, b: u128) -> (r: u128)
    ensures
        r == (if a * b > u128::MAX { u128::MAX as int } else { a * b }),
{
    match a.checked_mul(b) {
        Some(v) => v,
        None => u128::MAX,
    }
}

/// `x` saturated at `u128::MAX`.
pub open spec fn sat_u128(x: int) -> int {
    if x > u128::MAX {
        u128::MAX as int
    } else {
        x
    }
}

/// The cost of the step from `a` to `b`, before capping: a layer change
/// costs `BASE_EDGE_COST * p2`; a step along a layer costs (base plus the
/// edge's history) times (`p2` plus `p3` per unit of would-be overuse),
/// each product saturated.
pub open spec fn raw_edge_cost(g: &GlobalGrid, a: GCell, b: GCell, usage: Seq<i64>, history: Seq<i64>, p2: int, p3: int) -> int {
    match step_slot(g, a, b) {
        None => sat_u128(BASE_EDGE_COST * p2),
        Some(s) => {
            let capacity = spec_capacity(g, a, b);
            let would_be = usage[s] + 1;
            let overuse: int = if capacity == i64::MAX || would_be <= capacity {
                0
            } else {
                would_be - capacity
            };
            let base: int = if history[s] > 0 {
                BASE_EDGE_COST + history[s]
            } else {
                BASE_EDGE_COST as int
            };
            sat_u128(base * sat_u128(p2 + sat_u128(p3 * overuse)))
        },
    }
}

/// The cost of the step from `a` to `b`: its raw cost, capped at
/// `EDGE_COST_CAP` and at least 1.
pub open spec fn spec_edge_cost(g: &GlobalGrid, a: GCell, b: GCell, usage: Seq<i64>, history: Seq<i64>, p2: int, p3: int) -> int {
    let raw = raw_edge_cost(g, a, b, usage, history, p2, p3);
    if raw > EDGE_COST_CAP {
        EDGE_COST_CAP as int
    } else if raw == 0 {
        1
    } else {
        raw
    }
}

/// The cost of stepping from `a` to `b` in a round whose costs are scaled
/// by `p2 = 2^k`, with present factor `p3 / p2 = 1.5^k`: a layer change
/// costs the base cost; a step along a layer costs base plus history, times
/// one plus the present factor per unit of would-be overuse. Capped.
fn edge_cost(
    g: &GlobalGrid,
    a: GCell,
    b: GCell,
    usage: &Vec<i64>,
    history: &Vec<i64>,
    p2: u128,
    p3: u128,
) -> (c: u128)
    requires
        g_size(g) <= usize::MAX,
        2 * g_size(g) <= usize::MAX,
        g_move(g, a, b),
        usage@.len() == 2 * g_size(g),
        history@.len() == 2 * g_size(g),
        p2 >= 1,
    ensures
        c == spec_edge_cost(g, a, b, usage@, history@, p2 as int, p3 as int),
        1 <= c <= EDGE_COST_CAP,
{
    let raw: u128 = match slot_of(g, a, b) {
        None => sat_mul(BASE_EDGE_COST, p2),
        Some(s) => {
            let capacity = g.capacity(a, b);
            let used = usage[s];
            let hist = history[s];
            let would_be = (used as i128) + 1;
            let overuse: u128 = if capacity == i64::MAX || would_be <= capacity as i128 {
                0
            } else {
                (would_be - capacity as i128) as u128
            };
            let base: u128 = if hist > 0 { BASE_EDGE_COST + hist as u128 } else { BASE_EDGE_COST };
            let present = sat_mul(p3, overuse);
            let factor = p2.saturating_add(present);
            sat_mul(base, factor)
        },
    };
    if raw > EDGE_COST_CAP {
        EDGE_COST_CAP
    } else if raw == 0 {
        1
    } else {
        raw
    }
}


pub open spec fn gi(g: &GlobalGrid, c: GCell) -> int {
    g_index(g, c)
}

/// The Dijkstra bookkeeping per flat cell index, as in the detail
/// router's search: known cost, predecessor, expanded flag.
pub open spec fn gsearch_inv(
    g: &GlobalGrid,
    starts: Seq<GCell>,
    goals: Seq<GCell>,
    n: int,
    dist: Seq<Option<u128>>,
    came: Seq<Option<GCell>>,
    closed: Seq<bool>,
    closed_cnt: int,
    exempt: Option<GCell>,
) -> bool {
    &&& dist.len() == n
    &&& came.len() == n
    &&& closed.len() == n
    &&& n == g_size(g)
    &&& g.width <= i32::MAX
    &&& closed_cnt == count_true(closed, n)
    &&& forall|c: GCell|
        #![trigger dist[gi(g, c)]]
        g_in_bounds(g, c) && dist[gi(g, c)] is Some ==> dist[gi(g, c)]->0 <= EDGE_COST_CAP * closed_cnt
    &&& forall|c: GCell|
        #![trigger came[gi(g, c)]]
        g_in_bounds(g, c) && came[gi(g, c)] is Some ==> {
            let p = came[gi(g, c)]->0;
            &&& dist[gi(g, c)] is Some
            &&& g_in_bounds(g, p)
            &&& dist[gi(g, p)] is Some
            &&& dist[gi(g, p)]->0 < dist[gi(g, c)]->0
            &&& g_move(g, p, c)
        }
    &&& forall|c: GCell|
        #![trigger came[gi(g, c)]]
        g_in_bounds(g, c) && dist[gi(g, c)] is Some && came[gi(g, c)] is None ==> starts.contains(c)
    &&& forall|c: GCell|
        #![trigger closed[gi(g, c)]]
        g_in_bounds(g, c) && closed[gi(g, c)] ==> {
            &&& dist[gi(g, c)] is Some
            &&& !goals.contains(c)
            &&& exempt != Some(c) ==> forall|t: GCell|
                g_move(g, c, t) ==> g_in_bounds(g, t) && (#[trigger] dist[gi(g, t)]) is Some
        }
    &&& forall|c: GCell| g_in_bounds(g, c) && starts.contains(c) ==> (#[trigger] dist[gi(g, c)]) is Some
}

pub open spec fn gopen_inv(
    g: &GlobalGrid,
    dist: Seq<Option<u128>>,
    closed: Seq<bool>,
    open: Seq<(u128, GCell)>,
) -> bool {
    &&& forall|j: int| 0 <= j < open.len() ==> g_in_bounds(g, (#[trigger] open[j]).1) && dist[gi(g, open[j].1)] is Some
    &&& forall|c: GCell|
        #![trigger dist[gi(g, c)]]
        g_in_bounds(g, c) && dist[gi(g, c)] is Some && !closed[gi(g, c)] ==> exists|j: int|
            0 <= j < open.len() && (#[trigger] open[j]).1 == c
}

/// The total cost of the steps along `p` under a round's costs.
pub open spec fn gpath_cost(g: &GlobalGrid, u: Seq<i64>, h: Seq<i64>, p2: int, p3: int, p: Seq<GCell>) -> int
    decreases p.len(),
{
    if p.len() <= 1 {
        0
    } else {
        gpath_cost(g, u, h, p2, p3, p.drop_last()) + spec_edge_cost(g, p[p.len() - 2], p[p.len() - 1], u, h, p2, p3)
    }
}

/// `p` leads by moves of the grid from an in-bounds start.
pub open spec fn gwalk(g: &GlobalGrid, starts: Seq<GCell>, p: Seq<GCell>) -> bool {
    &&& p.len() >= 1
    &&& g_in_bounds(g, p[0])
    &&& starts.contains(p[0])
    &&& forall|i: int| 0 <= i < p.len() - 1 ==> g_move(g, #[trigger] p[i], p[i + 1])
}

/// The known cost of `c` is no more than that of any walk to it.
pub open spec fn gd_opt(
    g: &GlobalGrid,
    starts: Seq<GCell>,
    u: Seq<i64>,
    h: Seq<i64>,
    p2: int,
    p3: int,
    dist: Seq<Option<u128>>,
    c: GCell,
) -> bool {
    forall|q: Seq<GCell>| #[trigger] gwalk(g, starts, q) && q.last() == c ==> dist[gi(g, c)]->0 <= gpath_cost(g, u, h, p2, p3, q)
}

/// The search's costs: expanded cells are known at least cost, every
/// move out of an expanded cell (but `exempt`) to an unexpanded one has
/// been relaxed, each predecessor link pays its step, starts cost 0.
pub open spec fn gcost_inv(
    g: &GlobalGrid,
    starts: Seq<GCell>,
    u: Seq<i64>,
    h: Seq<i64>,
    p2: int,
    p3: int,
    dist: Seq<Option<u128>>,
    came: Seq<Option<GCell>>,
    closed: Seq<bool>,
    exempt: Option<GCell>,
) -> bool {
    &&& forall|c: GCell|
        #![trigger closed[gi(g, c)]]
        g_in_bounds(g, c) && closed[gi(g, c)] ==> gd_opt(g, starts, u, h, p2, p3, dist, c)
    &&& forall|y: GCell, t: GCell|
        #![trigger closed[gi(g, y)], g_move(g, y, t)]
        g_in_bounds(g, y) && closed[gi(g, y)] && exempt != Some(y) && g_move(g, y, t) && !closed[gi(g, t)] ==> {
            &&& dist[gi(g, t)] is Some
            &&& dist[gi(g, t)]->0 <= dist[gi(g, y)]->0 + spec_edge_cost(g, y, t, u, h, p2, p3)
        }
    &&& forall|c: GCell|
        #![trigger came[gi(g, c)]]
        g_in_bounds(g, c) && came[gi(g, c)] is Some ==> dist[gi(g, c)]->0 >= dist[gi(g, came[gi(g, c)]->0)]->0
            + spec_edge_cost(g, came[gi(g, c)]->0, c, u, h, p2, p3)
    &&& forall|c: GCell|
        #![trigger came[gi(g, c)]]
        g_in_bounds(g, c) && dist[gi(g, c)] is Some && came[gi(g, c)] is None ==> dist[gi(g, c)]->0 == 0
    &&& forall|c: GCell| g_in_bounds(g, c) && starts.contains(c) ==> #[trigger] dist[gi(g, c)] == Some(0u128)
}

/// Every open entry's key is at least its cell's known cost, and each
/// unexpanded cell with a known cost has an entry keyed exactly by it.
pub open spec fn gkeys_inv(g: &GlobalGrid, dist: Seq<Option<u128>>, closed: Seq<bool>, open: Seq<(u128, GCell)>) -> bool {
    &&& forall|j: int| 0 <= j < open.len() ==> (#[trigger] open[j]).0 >= dist[gi(g, open[j].1)]->0
    &&& forall|c: GCell|
        #![trigger dist[gi(g, c)]]
        g_in_bounds(g, c) && dist[gi(g, c)] is Some && !closed[gi(g, c)] ==> exists|j: int|
            0 <= j < open.len() && (#[trigger] open[j]).1 == c && open[j].0 == dist[gi(g, c)]->0
}

proof fn lemma_edge_cost_nonneg(g: &GlobalGrid, a: GCell, b: GCell, u: Seq<i64>, h: Seq<i64>, p2: int, p3: int)
    requires
        p2 >= 0,
        p3 >= 0,
    ensures
        spec_edge_cost(g, a, b, u, h, p2, p3) >= 0,
{
    match step_slot(g, a, b) {
        None => {
            assert(BASE_EDGE_COST * p2 >= 0) by (nonlinear_arith)
                requires
                    p2 >= 0,
            ;
        },
        Some(s) => {
            let capacity = spec_capacity(g, a, b);
            let would_be = u[s] + 1;
            let overuse: int = if capacity == i64::MAX || would_be <= capacity {
                0
            } else {
                would_be - capacity
            };
            let base: int = if h[s] > 0 {
                BASE_EDGE_COST + h[s]
            } else {
                BASE_EDGE_COST as int
            };
            assert(p3 * overuse >= 0) by (nonlinear_arith)
                requires
                    p3 >= 0,
                    overuse >= 0,
            ;
            let f = sat_u128(p2 + sat_u128(p3 * overuse));
            assert(base * f >= 0) by (nonlinear_arith)
                requires
                    base >= 0,
                    f >= 0,
            ;
        },
    }
}

proof fn lemma_gwalk_prefix(g: &GlobalGrid, starts: Seq<GCell>, q: Seq<GCell>)
    requires
        gwalk(g, starts, q),
        q.len() >= 2,
    ensures
        gwalk(g, starts, q.drop_last()),
        g_move(g, q[q.len() - 2], q[q.len() - 1]),
{
    let q1 = q.drop_last();
    assert forall|i: int| 0 <= i < q1.len() - 1 implies g_move(g, #[trigger] q1[i], q1[i + 1]) by {
        assert(g_move(g, q[i], q[i + 1]));
    }
    assert(g_move(g, q[q.len() - 2], q[q.len() - 2 + 1]));
}

/// With `m` no more than any open key, no walk to an unexpanded cell costs
/// less than `m`.
proof fn lemma_gwalk_bound(
    g: &GlobalGrid,
    starts: Seq<GCell>,
    goals: Seq<GCell>,
    n: int,
    u: Seq<i64>,
    h: Seq<i64>,
    p2: int,
    p3: int,
    dist: Seq<Option<u128>>,
    came: Seq<Option<GCell>>,
    closed: Seq<bool>,
    cnt: int,
    open: Seq<(u128, GCell)>,
    m: int,
    q: Seq<GCell>,
)
    requires
        p2 >= 0,
        p3 >= 0,
        gsearch_inv(g, starts, goals, n, dist, came, closed, cnt, None),
        gcost_inv(g, starts, u, h, p2, p3, dist, came, closed, None),
        gkeys_inv(g, dist, closed, open),
        forall|j: int| 0 <= j < open.len() ==> m <= (#[trigger] open[j]).0,
        gwalk(g, starts, q),
        !closed[gi(g, q.last())],
    ensures
        m <= gpath_cost(g, u, h, p2, p3, q),
    decreases q.len(),
{
    let z = q.last();
    if q.len() == 1 {
        assert(starts.contains(z));
        assert(dist[gi(g, z)] == Some(0u128));
        let j = choose|j: int| 0 <= j < open.len() && (#[trigger] open[j]).1 == z && open[j].0 == dist[gi(g, z)]->0;
        assert(m <= open[j].0);
    } else {
        lemma_gwalk_prefix(g, starts, q);
        let q1 = q.drop_last();
        let y = q[q.len() - 2];
        assert(q1.last() == y);
        lemma_edge_cost_nonneg(g, y, z, u, h, p2, p3);
        lemma_gwalk_in_bounds(g, starts, q1, q1.len() - 1);
        if closed[gi(g, y)] {
            assert(gd_opt(g, starts, u, h, p2, p3, dist, y));
            assert(dist[gi(g, y)]->0 <= gpath_cost(g, u, h, p2, p3, q1));
            assert(dist[gi(g, z)] is Some);
            assert(dist[gi(g, z)]->0 <= dist[gi(g, y)]->0 + spec_edge_cost(g, y, z, u, h, p2, p3));
            let j = choose|j: int| 0 <= j < open.len() && (#[trigger] open[j]).1 == z && open[j].0 == dist[gi(g, z)]->0;
            assert(m <= open[j].0);
        } else {
            lemma_gwalk_bound(g, starts, goals, n, u, h, p2, p3, dist, came, closed, cnt, open, m, q1);
        }
    }
}

proof fn lemma_gwalk_in_bounds(g: &GlobalGrid, starts: Seq<GCell>, q: Seq<GCell>, i: int)
    requires
        gwalk(g, starts, q),
        0 <= i < q.len(),
    ensures
        g_in_bounds(g, q[i]),
    decreases i,
{
    if i > 0 {
        lemma_gwalk_in_bounds(g, starts, q, i - 1);
        assert(g_move(g, q[i - 1], q[i]));
    }
}

proof fn lemma_relax_costs(
    g: &GlobalGrid,
    starts: Seq<GCell>,
    u: Seq<i64>,
    h: Seq<i64>,
    p2: int,
    p3: int,
    d0: Seq<Option<u128>>,
    c0: Seq<Option<GCell>>,
    o0: Seq<(u128, GCell)>,
    closed: Seq<bool>,
    from: GCell,
    to: GCell,
    tentative: u128,
)
    requires
        g_size(g) <= usize::MAX,
        d0.len() == g_size(g),
        c0.len() == g_size(g),
        closed.len() == g_size(g),
        gcost_inv(g, starts, u, h, p2, p3, d0, c0, closed, Some(from)),
        gkeys_inv(g, d0, closed, o0),
        forall|j: int| 0 <= j < o0.len() ==> g_in_bounds(g, (#[trigger] o0[j]).1) && d0[gi(g, o0[j].1)] is Some,
        g_in_bounds(g, from),
        g_in_bounds(g, to),
        from != to,
        closed[gi(g, from)],
        !closed[gi(g, to)],
        d0[gi(g, from)] is Some,
        tentative == d0[gi(g, from)]->0 + spec_edge_cost(g, from, to, u, h, p2, p3),
        d0[gi(g, to)] is Some ==> tentative < d0[gi(g, to)]->0,
        forall|c: GCell|
            #![trigger c0[gi(g, c)]]
            g_in_bounds(g, c) && c0[gi(g, c)] is Some ==> d0[gi(g, c)] is Some && g_in_bounds(g, c0[gi(g, c)]->0)
                && d0[gi(g, c0[gi(g, c)]->0)] is Some,
    ensures
        gcost_inv(
            g,
            starts,
            u,
            h,
            p2,
            p3,
            d0.update(gi(g, to), Some(tentative)),
            c0.update(gi(g, to), Some(from)),
            closed,
            Some(from),
        ),
        gkeys_inv(g, d0.update(gi(g, to), Some(tentative)), closed, o0.push((tentative, to))),
{
    let d1 = d0.update(gi(g, to), Some(tentative));
    let c1 = c0.update(gi(g, to), Some(from));
    let o1 = o0.push((tentative, to));
    lemma_g_index(g, to, to);
    lemma_g_index(g, from, to);
    assert forall|c: GCell| g_in_bounds(g, c) && c != to implies #[trigger] d1[gi(g, c)] == d0[gi(g, c)] && c1[gi(g, c)] == c0[gi(g, c)] by {
        lemma_g_index(g, c, to);
    }
    assert forall|c: GCell| #![trigger closed[gi(g, c)]] g_in_bounds(g, c) && closed[gi(g, c)] implies gd_opt(g, starts, u, h, p2, p3, d1, c) by {
        assert(gd_opt(g, starts, u, h, p2, p3, d0, c));
        assert(c != to);
        assert(d1[gi(g, c)] == d0[gi(g, c)]);
    }
    assert forall|y: GCell, t: GCell|
        #![trigger closed[gi(g, y)], g_move(g, y, t)]
        g_in_bounds(g, y) && closed[gi(g, y)] && Some(from) != Some(y) && g_move(g, y, t) && !closed[gi(g, t)] implies {
            &&& d1[gi(g, t)] is Some
            &&& d1[gi(g, t)]->0 <= d1[gi(g, y)]->0 + spec_edge_cost(g, y, t, u, h, p2, p3)
        } by {
        assert(y != to);
        assert(d1[gi(g, y)] == d0[gi(g, y)]);
        assert(g_in_bounds(g, t));
        if t != to {
            assert(d1[gi(g, t)] == d0[gi(g, t)]);
        }
    }
    assert forall|c: GCell|
        #![trigger c1[gi(g, c)]]
        g_in_bounds(g, c) && c1[gi(g, c)] is Some implies d1[gi(g, c)]->0 >= d1[gi(g, c1[gi(g, c)]->0)]->0
            + spec_edge_cost(g, c1[gi(g, c)]->0, c, u, h, p2, p3) by {
        if c == to {
            assert(c1[gi(g, c)] == Some(from));
            assert(d1[gi(g, from)] == d0[gi(g, from)]);
        } else {
            assert(c1[gi(g, c)] == c0[gi(g, c)]);
            let pp = c0[gi(g, c)]->0;
            assert(g_in_bounds(g, pp));
            assert(d1[gi(g, c)] == d0[gi(g, c)]);
            if pp != to {
                assert(d1[gi(g, pp)] == d0[gi(g, pp)]);
            } else {
                assert(d1[gi(g, pp)] == Some(tentative));
            }
        }
    }
    assert forall|c: GCell|
        #![trigger c1[gi(g, c)]]
        g_in_bounds(g, c) && d1[gi(g, c)] is Some && c1[gi(g, c)] is None implies d1[gi(g, c)]->0 == 0 by {
        if c != to {
            assert(c1[gi(g, c)] == c0[gi(g, c)]);
        }
    }
    assert forall|c: GCell| g_in_bounds(g, c) && starts.contains(c) implies #[trigger] d1[gi(g, c)] == Some(0u128) by {
        assert(d0[gi(g, c)] == Some(0u128));
        if c == to {
            assert(false);
        }
    }
    assert forall|j: int| 0 <= j < o1.len() implies (#[trigger] o1[j]).0 >= d1[gi(g, o1[j].1)]->0 by {
        if j < o0.len() {
            assert(o1[j] == o0[j]);
            if o0[j].1 != to {
                assert(d1[gi(g, o0[j].1)] == d0[gi(g, o0[j].1)]);
            }
        }
    }
    assert forall|c: GCell|
        #![trigger d1[gi(g, c)]]
        g_in_bounds(g, c) && d1[gi(g, c)] is Some && !closed[gi(g, c)] implies exists|j: int|
            0 <= j < o1.len() && (#[trigger] o1[j]).1 == c && o1[j].0 == d1[gi(g, c)]->0 by {
        if c == to {
            assert(o1[o0.len() as int].1 == c);
        } else {
            assert(d0[gi(g, c)] is Some);
            let j = choose|j: int| 0 <= j < o0.len() && (#[trigger] o0[j]).1 == c && o0[j].0 == d0[gi(g, c)]->0;
            assert(o1[j] == o0[j]);
        }
    }
}

proof fn lemma_gcost_prepend(g: &GlobalGrid, u: Seq<i64>, h: Seq<i64>, p2: int, p3: int, x: GCell, f: Seq<GCell>)
    requires
        f.len() >= 1,
    ensures
        gpath_cost(g, u, h, p2, p3, seq![x] + f) == spec_edge_cost(g, x, f[0], u, h, p2, p3) + gpath_cost(g, u, h, p2, p3, f),
    decreases f.len(),
{
    let hh = seq![x] + f;
    assert(hh.len() == f.len() + 1);
    assert(hh[hh.len() - 1] == f[f.len() - 1]);
    assert(hh[hh.len() - 2] == if f.len() == 1 { x } else { f[f.len() - 2] });
    if f.len() == 1 {
        assert(hh.drop_last() =~= seq![x]);
        assert(gpath_cost(g, u, h, p2, p3, seq![x]) == 0);
        assert(gpath_cost(g, u, h, p2, p3, f) == 0);
    } else {
        assert(hh.drop_last() =~= seq![x] + f.drop_last());
        lemma_gcost_prepend(g, u, h, p2, p3, x, f.drop_last());
        assert(f.drop_last()[0] == f[0]);
    }
}

proof fn lemma_gkeys_after_pop(
    g: &GlobalGrid,
    dist: Seq<Option<u128>>,
    closed: Seq<bool>,
    o0: Seq<(u128, GCell)>,
    o1: Seq<(u128, GCell)>,
    k: int,
    cell: GCell,
)
    requires
        gkeys_inv(g, dist, closed, o0),
        0 <= k < o0.len(),
        o0[k].1 == cell,
        o1 == o0.update(k, o0.last()).drop_last(),
    ensures
        forall|j: int| 0 <= j < o1.len() ==> (#[trigger] o1[j]).0 >= dist[gi(g, o1[j].1)]->0,
        forall|c: GCell|
            #![trigger dist[gi(g, c)]]
            g_in_bounds(g, c) && dist[gi(g, c)] is Some && !closed[gi(g, c)] && c != cell ==> exists|j: int|
                0 <= j < o1.len() && (#[trigger] o1[j]).1 == c && o1[j].0 == dist[gi(g, c)]->0,
{
    assert forall|j: int| 0 <= j < o1.len() implies (#[trigger] o1[j]).0 >= dist[gi(g, o1[j].1)]->0 by {
        if j == k {
            assert(o1[j] == o0[o0.len() - 1]);
        } else {
            assert(o1[j] == o0[j]);
        }
    }
    assert forall|c: GCell|
        #![trigger dist[gi(g, c)]]
        g_in_bounds(g, c) && dist[gi(g, c)] is Some && !closed[gi(g, c)] && c != cell implies exists|j: int|
            0 <= j < o1.len() && (#[trigger] o1[j]).1 == c && o1[j].0 == dist[gi(g, c)]->0 by {
        let j = choose|j: int| 0 <= j < o0.len() && (#[trigger] o0[j]).1 == c && o0[j].0 == dist[gi(g, c)]->0;
        if j == o0.len() - 1 {
            if k < o0.len() - 1 {
                assert(o1[k] == o0[j]);
            }
        } else {
            assert(j != k);
            assert(o1[j] == o0[j]);
        }
    }
}

proof fn lemma_gcost_after_close(
    g: &GlobalGrid,
    starts: Seq<GCell>,
    u: Seq<i64>,
    h: Seq<i64>,
    p2: int,
    p3: int,
    dist: Seq<Option<u128>>,
    came: Seq<Option<GCell>>,
    closed0: Seq<bool>,
    closed1: Seq<bool>,
    cell: GCell,
    open: Seq<(u128, GCell)>,
)
    requires
        g_size(g) <= usize::MAX,
        closed0.len() == g_size(g),
        gcost_inv(g, starts, u, h, p2, p3, dist, came, closed0, None),
        g_in_bounds(g, cell),
        gd_opt(g, starts, u, h, p2, p3, dist, cell),
        closed1 == closed0.update(gi(g, cell), true),
        forall|j: int| 0 <= j < open.len() ==> (#[trigger] open[j]).0 >= dist[gi(g, open[j].1)]->0,
        forall|c: GCell|
            #![trigger dist[gi(g, c)]]
            g_in_bounds(g, c) && dist[gi(g, c)] is Some && !closed0[gi(g, c)] && c != cell ==> exists|j: int|
                0 <= j < open.len() && (#[trigger] open[j]).1 == c && open[j].0 == dist[gi(g, c)]->0,
    ensures
        gcost_inv(g, starts, u, h, p2, p3, dist, came, closed1, Some(cell)),
        gkeys_inv(g, dist, closed1, open),
{
    lemma_g_index(g, cell, cell);
    assert forall|c: GCell| g_in_bounds(g, c) && c != cell implies #[trigger] closed1[gi(g, c)] == closed0[gi(g, c)] by {
        lemma_g_index(g, c, cell);
    }
    assert forall|c: GCell| #![trigger closed1[gi(g, c)]] g_in_bounds(g, c) && closed1[gi(g, c)] implies gd_opt(g, starts, u, h, p2, p3, dist, c) by {
        if c != cell {
            assert(closed0[gi(g, c)]);
        }
    }
    assert forall|y: GCell, t: GCell|
        #![trigger closed1[gi(g, y)], g_move(g, y, t)]
        g_in_bounds(g, y) && closed1[gi(g, y)] && Some(cell) != Some(y) && g_move(g, y, t) && !closed1[gi(g, t)] implies {
            &&& dist[gi(g, t)] is Some
            &&& dist[gi(g, t)]->0 <= dist[gi(g, y)]->0 + spec_edge_cost(g, y, t, u, h, p2, p3)
        } by {
        assert(closed0[gi(g, y)]);
        assert(g_in_bounds(g, t));
        if t == cell {
            assert(closed1[gi(g, t)]);
        }
        assert(!closed0[gi(g, t)]);
    }
    assert forall|c: GCell|
        #![trigger dist[gi(g, c)]]
        g_in_bounds(g, c) && dist[gi(g, c)] is Some && !closed1[gi(g, c)] implies exists|j: int|
            0 <= j < open.len() && (#[trigger] open[j]).1 == c && open[j].0 == dist[gi(g, c)]->0 by {
        if c == cell {
            assert(closed1[gi(g, c)]);
        } else {
            assert(!closed0[gi(g, c)]);
        }
    }
}

proof fn lemma_gcost_close_done(
    g: &GlobalGrid,
    starts: Seq<GCell>,
    u: Seq<i64>,
    h: Seq<i64>,
    p2: int,
    p3: int,
    dist: Seq<Option<u128>>,
    came: Seq<Option<GCell>>,
    closed: Seq<bool>,
    cell: GCell,
)
    requires
        gcost_inv(g, starts, u, h, p2, p3, dist, came, closed, Some(cell)),
        forall|t: GCell|
            g_move(g, cell, t) && !closed[gi(g, t)] ==> (#[trigger] dist[gi(g, t)]) is Some && dist[gi(g, t)]->0
                <= dist[gi(g, cell)]->0 + spec_edge_cost(g, cell, t, u, h, p2, p3),
    ensures
        gcost_inv(g, starts, u, h, p2, p3, dist, came, closed, None),
{
    assert forall|y: GCell, t: GCell|
        #![trigger closed[gi(g, y)], g_move(g, y, t)]
        g_in_bounds(g, y) && closed[gi(g, y)] && None::<GCell> != Some(y) && g_move(g, y, t) && !closed[gi(g, t)] implies {
            &&& dist[gi(g, t)] is Some
            &&& dist[gi(g, t)]->0 <= dist[gi(g, y)]->0 + spec_edge_cost(g, y, t, u, h, p2, p3)
        } by {
        if y == cell {
            assert(dist[gi(g, t)] is Some);
        }
    }
}

fn contains_cell(v: &Vec<GCell>, c: GCell) -> (r: bool)
    ensures
        r == v@.contains(c),
{
    let mut i: usize = 0;
    while i < v.len()
        invariant
            i <= v@.len(),
            forall|j: int| 0 <= j < i ==> v@[j] != c,
        decreases v@.len() - i,
    {
        if v[i] == c {
            assert(v@[i as int] == c);
            return true;
        }
        i += 1;
    }
    false
}

fn g_argmin(open: &Vec<(u128, GCell)>) -> (k: usize)
    requires
        open@.len() > 0,
    ensures
        k < open@.len(),
        forall|j: int| 0 <= j < open@.len() ==> open@[k as int].0 <= (#[trigger] open@[j]).0,
        forall|j: int| 0 <= j < k ==> (#[trigger] open@[j]).0 > open@[k as int].0,
{
    let mut best: usize = 0;
    let mut i: usize = 1;
    while i < open.len()
        invariant
            best < i <= open@.len(),
            forall|j: int| 0 <= j < i ==> open@[best as int].0 <= (#[trigger] open@[j]).0,
            forall|j: int| 0 <= j < best ==> (#[trigger] open@[j]).0 > open@[best as int].0,
        decreases open@.len() - i,
    {
        if open[i].0 < open[best].0 {
            best = i;
        }
        i += 1;
    }
    best
}

pub open spec fn g_dir(d: int) -> (int, int) {
    if d == 0 {
        (1, 0)
    } else if d == 1 {
        (-1, 0)
    } else if d == 2 {
        (0, 1)
    } else {
        (0, -1)
    }
}

fn g_direction(d: usize) -> (r: (i32, i32))
    requires
        d < 4,
    ensures
        r.0 == g_dir(d as int).0,
        r.1 == g_dir(d as int).1,
{
    if d == 0 {
        (1, 0)
    } else if d == 1 {
        (-1, 0)
    } else if d == 2 {
        (0, 1)
    } else {
        (0, -1)
    }
}

/// Lowers the known cost of `to` (reached from `from`) to `tentative` when
/// that improves on it, and queues `to`.
fn g_relax(
    g: &GlobalGrid,
    starts: &Vec<GCell>,
    goals: &Vec<GCell>,
    dist: &mut Vec<Option<u128>>,
    came: &mut Vec<Option<GCell>>,
    closed: &Vec<bool>,
    open: &mut Vec<(u128, GCell)>,
    from: GCell,
    to: GCell,
    tentative: u128,
    Ghost(n): Ghost<int>,
    Ghost(cnt): Ghost<int>,
    Ghost(u): Ghost<Seq<i64>>,
    Ghost(h): Ghost<Seq<i64>>,
    Ghost(p2): Ghost<int>,
    Ghost(p3): Ghost<int>,
)
    requires
        g_size(g) <= usize::MAX,
        gcost_inv(g, starts@, u, h, p2, p3, old(dist)@, old(came)@, closed@, Some(from)),
        gkeys_inv(g, old(dist)@, closed@, old(open)@),
        closed@[gi(g, from)],
        tentative == old(dist)@[gi(g, from)]->0 + spec_edge_cost(g, from, to, u, h, p2, p3),
        gsearch_inv(g, starts@, goals@, n, old(dist)@, old(came)@, closed@, cnt, Some(from)),
        gopen_inv(g, old(dist)@, closed@, old(open)@),
        g_in_bounds(g, from),
        g_in_bounds(g, to),
        g_move(g, from, to),
        old(dist)@[gi(g, from)] is Some,
        old(dist)@[gi(g, from)]->0 < tentative <= EDGE_COST_CAP * cnt,
    ensures
        gsearch_inv(g, starts@, goals@, n, final(dist)@, final(came)@, closed@, cnt, Some(from)),
        gopen_inv(g, final(dist)@, closed@, final(open)@),
        final(dist)@[gi(g, to)] is Some,
        final(dist)@[gi(g, from)] == old(dist)@[gi(g, from)],
        forall|c: GCell| g_in_bounds(g, c) && (#[trigger] old(dist)@[gi(g, c)]) is Some ==> final(dist)@[gi(g, c)] is Some,
        gcost_inv(g, starts@, u, h, p2, p3, final(dist)@, final(came)@, closed@, Some(from)),
        gkeys_inv(g, final(dist)@, closed@, final(open)@),
        !closed@[gi(g, to)] ==> final(dist)@[gi(g, to)]->0 <= tentative,
        forall|c: GCell|
            g_in_bounds(g, c) && (#[trigger] old(dist)@[gi(g, c)]) is Some ==> final(dist)@[gi(g, c)]->0 <= old(
                dist,
            )@[gi(g, c)]->0,
{
    let ti = g_index_of(g, to);
    let improved = !closed[ti] && match dist[ti] {
        None => true,
        Some(existing) => tentative < existing,
    };
    if improved {
        let ghost d0 = dist@;
        let ghost c0 = came@;
        let ghost o0 = open@;
        proof {
            lemma_relax_costs(g, starts@, u, h, p2, p3, d0, c0, o0, closed@, from, to, tentative);
        }
        dist.set(ti, Some(tentative));
        came.set(ti, Some(from));
        open.push((tentative, to));
        proof {
            lemma_g_index(g, to, to);
            assert(from != to);
            assert forall|c: GCell| #![trigger dist@[gi(g, c)]] g_in_bounds(g, c) && c != to implies dist@[gi(g, c)] == d0[gi(g, c)] && came@[gi(g, c)] == c0[gi(g, c)] by {
                lemma_g_index(g, c, to);
            }
            assert(dist@[gi(g, to)] == Some(tentative));
            assert forall|c: GCell|
                #![trigger came@[gi(g, c)]]
                g_in_bounds(g, c) && came@[gi(g, c)] is Some implies {
                    let p = came@[gi(g, c)]->0;
                    &&& dist@[gi(g, c)] is Some
                    &&& g_in_bounds(g, p)
                    &&& dist@[gi(g, p)] is Some
                    &&& dist@[gi(g, p)]->0 < dist@[gi(g, c)]->0
                    &&& g_move(g, p, c)
                } by {
                if c == to {
                    assert(dist@[gi(g, from)] == d0[gi(g, from)]);
                } else {
                    assert(came@[gi(g, c)] == c0[gi(g, c)]);
                    let p = c0[gi(g, c)]->0;
                    if p != to {
                        assert(dist@[gi(g, p)] == d0[gi(g, p)]);
                    }
                }
            }
            assert forall|c: GCell|
                #![trigger came@[gi(g, c)]]
                g_in_bounds(g, c) && dist@[gi(g, c)] is Some && came@[gi(g, c)] is None implies starts@.contains(c) by {
                if c == to {
                    assert(came@[gi(g, c)] == Some(from));
                }
            }
            assert forall|c: GCell|
                #![trigger closed@[gi(g, c)]]
                g_in_bounds(g, c) && closed@[gi(g, c)] implies {
                    &&& dist@[gi(g, c)] is Some
                    &&& !goals@.contains(c)
                    &&& Some(from) != Some(c) ==> forall|t: GCell|
                        g_move(g, c, t) ==> g_in_bounds(g, t) && (#[trigger] dist@[gi(g, t)]) is Some
                } by {
                if Some(from) != Some(c) {
                    assert forall|t: GCell| g_move(g, c, t) implies g_in_bounds(g, t) && (#[trigger] dist@[gi(g, t)]) is Some by {
                        assert(d0[gi(g, t)] is Some);
                    }
                }
                if c != to {
                    assert(dist@[gi(g, c)] == d0[gi(g, c)]);
                }
            }
            assert forall|c: GCell| g_in_bounds(g, c) && starts@.contains(c) implies (#[trigger] dist@[gi(g, c)]) is Some by {
                if c != to {
                    assert(d0[gi(g, c)] is Some);
                }
            }
            assert forall|c: GCell|
                #![trigger dist@[gi(g, c)]]
                g_in_bounds(g, c) && dist@[gi(g, c)] is Some ==> dist@[gi(g, c)]->0 <= EDGE_COST_CAP * cnt by {
            }
            assert forall|j: int| 0 <= j < open@.len() implies g_in_bounds(g, (#[trigger] open@[j]).1) && dist@[gi(g, open@[j].1)] is Some by {
                if j < o0.len() {
                    assert(open@[j] == o0[j]);
                }
            }
            assert forall|c: GCell|
                #![trigger dist@[gi(g, c)]]
                g_in_bounds(g, c) && dist@[gi(g, c)] is Some && !closed@[gi(g, c)] implies exists|j: int|
                    0 <= j < open@.len() && (#[trigger] open@[j]).1 == c by {
                if c == to {
                    assert(open@[o0.len() as int].1 == c);
                } else {
                    assert(d0[gi(g, c)] is Some);
                    let j = choose|j: int| 0 <= j < o0.len() && (#[trigger] o0[j]).1 == c;
                    assert(open@[j] == o0[j]);
                }
            }
            assert forall|c: GCell| g_in_bounds(g, c) && (#[trigger] d0[gi(g, c)]) is Some implies dist@[gi(g, c)] is Some by {
            }
        }
    }
}


proof fn lemma_gopen_after_pop(
    g: &GlobalGrid,
    dist: Seq<Option<u128>>,
    closed: Seq<bool>,
    o0: Seq<(u128, GCell)>,
    o1: Seq<(u128, GCell)>,
    k: int,
    cell: GCell,
)
    requires
        gopen_inv(g, dist, closed, o0),
        0 <= k < o0.len(),
        o0[k].1 == cell,
        o1 == o0.update(k, o0.last()).drop_last(),
    ensures
        forall|j: int| 0 <= j < o1.len() ==> g_in_bounds(g, (#[trigger] o1[j]).1) && dist[gi(g, o1[j].1)] is Some,
        forall|c: GCell|
            #![trigger dist[gi(g, c)]]
            g_in_bounds(g, c) && dist[gi(g, c)] is Some && !closed[gi(g, c)] && c != cell ==> exists|j: int|
                0 <= j < o1.len() && (#[trigger] o1[j]).1 == c,
{
    assert forall|j: int| 0 <= j < o1.len() implies g_in_bounds(g, (#[trigger] o1[j]).1) && dist[gi(g, o1[j].1)] is Some by {
        if j == k {
            assert(o1[j] == o0[o0.len() - 1]);
        } else {
            assert(o1[j] == o0[j]);
        }
    }
    assert forall|c: GCell|
        #![trigger dist[gi(g, c)]]
        g_in_bounds(g, c) && dist[gi(g, c)] is Some && !closed[gi(g, c)] && c != cell implies exists|j: int|
            0 <= j < o1.len() && (#[trigger] o1[j]).1 == c by {
        let j = choose|j: int| 0 <= j < o0.len() && (#[trigger] o0[j]).1 == c;
        if j == o0.len() - 1 {
            if k < o0.len() - 1 {
                assert(o1[k] == o0[j]);
            }
        } else {
            assert(j != k);
            assert(o1[j] == o0[j]);
        }
    }
}

proof fn lemma_g_after_close(
    g: &GlobalGrid,
    starts: Seq<GCell>,
    goals: Seq<GCell>,
    n: int,
    dist: Seq<Option<u128>>,
    came: Seq<Option<GCell>>,
    closed0: Seq<bool>,
    closed1: Seq<bool>,
    cnt0: int,
    cell: GCell,
    open: Seq<(u128, GCell)>,
)
    requires
        gsearch_inv(g, starts, goals, n, dist, came, closed0, cnt0, None),
        g_in_bounds(g, cell),
        dist[gi(g, cell)] is Some,
        !closed0[gi(g, cell)],
        !goals.contains(cell),
        closed1 == closed0.update(gi(g, cell), true),
        count_true(closed1, n) == cnt0 + 1,
        forall|j: int| 0 <= j < open.len() ==> g_in_bounds(g, (#[trigger] open[j]).1) && dist[gi(g, open[j].1)] is Some,
        forall|c: GCell|
            #![trigger dist[gi(g, c)]]
            g_in_bounds(g, c) && dist[gi(g, c)] is Some && !closed0[gi(g, c)] && c != cell ==> exists|j: int|
                0 <= j < open.len() && (#[trigger] open[j]).1 == c,
    ensures
        gsearch_inv(g, starts, goals, n, dist, came, closed1, cnt0 + 1, Some(cell)),
        gopen_inv(g, dist, closed1, open),
{
    lemma_g_index(g, cell, cell);
    assert(closed1[gi(g, cell)]);
    assert forall|c: GCell| #![trigger closed1[gi(g, c)]] g_in_bounds(g, c) && c != cell implies closed1[gi(g, c)] == closed0[gi(g, c)] by {
        lemma_g_index(g, c, cell);
    }
    assert forall|c: GCell|
        #![trigger dist[gi(g, c)]]
        g_in_bounds(g, c) && dist[gi(g, c)] is Some implies dist[gi(g, c)]->0 <= EDGE_COST_CAP * (cnt0 + 1) by {
    }
    assert forall|c: GCell|
        #![trigger closed1[gi(g, c)]]
        g_in_bounds(g, c) && closed1[gi(g, c)] implies {
            &&& dist[gi(g, c)] is Some
            &&& !goals.contains(c)
            &&& Some(cell) != Some(c) ==> forall|t: GCell|
                g_move(g, c, t) ==> g_in_bounds(g, t) && (#[trigger] dist[gi(g, t)]) is Some
        } by {
        if c != cell {
            assert(closed0[gi(g, c)]);
        }
    }
    assert forall|c: GCell|
        #![trigger dist[gi(g, c)]]
        g_in_bounds(g, c) && dist[gi(g, c)] is Some && !closed1[gi(g, c)] implies exists|j: int|
            0 <= j < open.len() && (#[trigger] open[j]).1 == c by {
        if c == cell {
            assert(closed1[gi(g, c)]);
        } else {
            assert(!closed0[gi(g, c)]);
        }
    }
}

proof fn lemma_g_close_done(
    g: &GlobalGrid,
    starts: Seq<GCell>,
    goals: Seq<GCell>,
    n: int,
    dist: Seq<Option<u128>>,
    came: Seq<Option<GCell>>,
    closed: Seq<bool>,
    cnt: int,
    cell: GCell,
)
    requires
        gsearch_inv(g, starts, goals, n, dist, came, closed, cnt, Some(cell)),
        g_in_bounds(g, cell),
        forall|t: GCell| g_move(g, cell, t) ==> (#[trigger] dist[gi(g, t)]) is Some,
    ensures
        gsearch_inv(g, starts, goals, n, dist, came, closed, cnt, None),
{
    assert forall|c: GCell|
        #![trigger closed[gi(g, c)]]
        g_in_bounds(g, c) && closed[gi(g, c)] implies {
            &&& dist[gi(g, c)] is Some
            &&& !goals.contains(c)
            &&& None::<GCell> != Some(c) ==> forall|t: GCell|
                g_move(g, c, t) ==> g_in_bounds(g, t) && (#[trigger] dist[gi(g, t)]) is Some
        } by {
        if c == cell {
            assert forall|t: GCell| g_move(g, c, t) implies g_in_bounds(g, t) && (#[trigger] dist[gi(g, t)]) is Some by {
                assert(dist[gi(g, t)] is Some);
            }
        }
    }
}

proof fn lemma_g_path_known(
    g: &GlobalGrid,
    starts: Seq<GCell>,
    goals: Seq<GCell>,
    n: int,
    dist: Seq<Option<u128>>,
    came: Seq<Option<GCell>>,
    closed: Seq<bool>,
    cnt: int,
    p: Seq<GCell>,
    i: int,
)
    requires
        gsearch_inv(g, starts, goals, n, dist, came, closed, cnt, None),
        gopen_inv(g, dist, closed, Seq::<(u128, GCell)>::empty()),
        valid_gpath(g, starts, goals, p),
        0 <= i < p.len(),
    ensures
        g_in_bounds(g, p[i]),
        dist[gi(g, p[i])] is Some,
        closed[gi(g, p[i])],
    decreases i,
{
    if i == 0 {
        assert(dist[gi(g, p[0])] is Some);
    } else {
        lemma_g_path_known(g, starts, goals, n, dist, came, closed, cnt, p, i - 1);
        assert(g_move(g, p[i - 1], p[i]));
    }
    if !closed[gi(g, p[i])] {
        let c = p[i];
        assert(exists|j: int| 0 <= j < 0 && (#[trigger] Seq::<(u128, GCell)>::empty()[j]).1 == c);
    }
}

fn g_reconstruct(
    g: &GlobalGrid,
    starts: &Vec<GCell>,
    goals: &Vec<GCell>,
    dist: &Vec<Option<u128>>,
    came: &Vec<Option<GCell>>,
    goal: GCell,
    Ghost(n): Ghost<int>,
    Ghost(closed): Ghost<Seq<bool>>,
    Ghost(cnt): Ghost<int>,
    Ghost(u): Ghost<Seq<i64>>,
    Ghost(h): Ghost<Seq<i64>>,
    Ghost(p2): Ghost<int>,
    Ghost(p3): Ghost<int>,
) -> (p: Vec<GCell>)
    requires
        g_size(g) <= usize::MAX,
        gsearch_inv(g, starts@, goals@, n, dist@, came@, closed, cnt, None),
        gcost_inv(g, starts@, u, h, p2, p3, dist@, came@, closed, None),
        g_in_bounds(g, goal),
        dist@[gi(g, goal)] is Some,
        goals@.contains(goal),
    ensures
        valid_gpath(g, starts@, goals@, p@),
        gpath_cost(g, u, h, p2, p3, p@) <= dist@[gi(g, goal)]->0,
{
    let mut rev: Vec<GCell> = Vec::new();
    rev.push(goal);
    let mut cur = goal;
    let ghost mut fwd: Seq<GCell> = seq![goal];
    loop
        invariant
            g_size(g) <= usize::MAX,
            gsearch_inv(g, starts@, goals@, n, dist@, came@, closed, cnt, None),
            gcost_inv(g, starts@, u, h, p2, p3, dist@, came@, closed, None),
            g_in_bounds(g, cur),
            dist@[gi(g, cur)] is Some,
            dist@[gi(g, goal)] is Some,
            rev@.len() >= 1,
            rev@[0] == goal,
            rev@.last() == cur,
            forall|i: int| 0 <= i < rev@.len() - 1 ==> g_move(g, #[trigger] rev@[i + 1], rev@[i]),
            fwd.len() == rev@.len(),
            forall|i: int| 0 <= i < fwd.len() ==> #[trigger] fwd[i] == rev@[rev@.len() - 1 - i],
            gpath_cost(g, u, h, p2, p3, fwd) + dist@[gi(g, cur)]->0 <= dist@[gi(g, goal)]->0,
        ensures
            came@[gi(g, cur)] is None,
        decreases dist@[gi(g, cur)]->0,
    {
        let ci = g_index_of(g, cur);
        match came[ci] {
            Some(prev) => {
                let ghost r0 = rev@;
                rev.push(prev);
                proof {
                    assert forall|i: int| 0 <= i < rev@.len() - 1 implies g_move(g, #[trigger] rev@[i + 1], rev@[i]) by {
                        if i < r0.len() - 1 {
                            assert(rev@[i] == r0[i] && rev@[i + 1] == r0[i + 1]);
                        } else {
                            assert(rev@[i] == cur && rev@[i + 1] == prev);
                        }
                    }
                    assert(fwd[0] == cur);
                    lemma_gcost_prepend(g, u, h, p2, p3, prev, fwd);
                    let f2 = seq![prev] + fwd;
                    assert forall|i: int| 0 <= i < f2.len() implies #[trigger] f2[i] == rev@[rev@.len() - 1 - i] by {
                        if i > 0 {
                            assert(f2[i] == fwd[i - 1]);
                        }
                    }
                    fwd = f2;
                }
                cur = prev;
            },
            None => {
                break;
            },
        }
    }
    let mut path: Vec<GCell> = Vec::new();
    let len = rev.len();
    let mut k: usize = len;
    while k > 0
        invariant
            k <= len,
            len == rev@.len(),
            path@.len() == len - k,
            forall|i: int| 0 <= i < path@.len() ==> path@[i] == rev@[len - 1 - i],
        decreases k,
    {
        k -= 1;
        path.push(rev[k]);
    }
    proof {
        assert(path@[0] == cur);
        assert(path@.last() == goal);
        assert(path@ =~= fwd);
        assert forall|i: int| 0 <= i < path@.len() - 1 implies g_move(g, #[trigger] path@[i], path@[i + 1]) by {
            let j = len - 2 - i;
            assert(g_move(g, rev@[j + 1], rev@[j]));
        }
    }
    path
}

/// A cheapest path (by the round's congestion-aware edge costs) from one
/// of the request's in-bounds starts to one of its goals, by Dijkstra;
/// `None` when no path exists.
fn shortest_path(
    g: &GlobalGrid,
    request: &NetRequest,
    usage: &Vec<i64>,
    history: &Vec<i64>,
    p2: u128,
    p3: u128,
) -> (r: Option<Vec<GCell>>)
    requires
        2 * g_size(g) <= usize::MAX,
        usage@.len() == 2 * g_size(g),
        history@.len() == 2 * g_size(g),
        p2 >= 1,
    ensures
        r matches Some(p) ==> valid_gpath(g, request.starts@, request.goals@, p@),
        r matches Some(p) ==> forall|q: Seq<GCell>|
            #[trigger] valid_gpath(g, request.starts@, request.goals@, q) ==> gpath_cost(g, usage@, history@, p2 as int, p3 as int, p@)
                <= gpath_cost(g, usage@, history@, p2 as int, p3 as int, q),
        r is None ==> forall|p: Seq<GCell>| !valid_gpath(g, request.starts@, request.goals@, p),
{
    let ghost u = usage@;
    let ghost h = history@;
    let ghost q2 = p2 as int;
    let ghost q3 = p3 as int;
    let starts = &request.starts;
    let goals = &request.goals;
    let n: usize = if g.width <= 0 || g.height <= 0 || g.layer_capacity.len() == 0 {
        proof {
            assert(g_size(g) == 0) by (nonlinear_arith)
                requires
                    g.width <= 0 || g.height <= 0 || g_layers(g) == 0,
                    g_size(g) == (if g.width > 0 { g.width as int } else { 0 }) * (if g.height > 0 { g.height as int } else { 0 }) * g_layers(g),
            {
            }
        }
        0
    } else {
        proof {
            assert(g_size(g) == (g.width as int) * (g.height as int) * g_layers(g));
            assert((g.width as int) * (g.height as int) <= g_size(g)) by (nonlinear_arith)
                requires
                    g.width > 0,
                    g.height > 0,
                    g_layers(g) >= 1,
                    g_size(g) == (g.width as int) * (g.height as int) * g_layers(g),
            {
            }
        }
        (g.width as usize) * (g.height as usize) * g.layer_capacity.len()
    };
    let mut dist: Vec<Option<u128>> = Vec::new();
    let mut came: Vec<Option<GCell>> = Vec::new();
    let mut closed: Vec<bool> = Vec::new();
    while dist.len() < n
        invariant
            dist@.len() <= n,
            came@.len() == dist@.len(),
            closed@.len() == dist@.len(),
            forall|i: int| 0 <= i < dist@.len() ==> dist@[i] == None::<u128>,
            forall|i: int| 0 <= i < dist@.len() ==> came@[i] == None::<GCell>,
            forall|i: int| 0 <= i < dist@.len() ==> !closed@[i],
        decreases n - dist@.len(),
    {
        let ghost d0 = dist@;
        let ghost c0 = came@;
        let ghost k0 = closed@;
        dist.push(None);
        came.push(None);
        closed.push(false);
        proof {
            assert forall|i: int| 0 <= i < dist@.len() implies dist@[i] == None::<u128> by {
                if i < d0.len() {
                    assert(dist@[i] == d0[i]);
                }
            }
            assert forall|i: int| 0 <= i < dist@.len() implies came@[i] == None::<GCell> by {
                if i < d0.len() {
                    assert(came@[i] == c0[i]);
                }
            }
            assert forall|i: int| 0 <= i < dist@.len() implies !closed@[i] by {
                if i < d0.len() {
                    assert(closed@[i] == k0[i]);
                }
            }
        }
    }
    proof {
        lemma_count_zero(closed@, n as int);
        assert forall|c: GCell| #![trigger dist@[gi(g, c)]] g_in_bounds(g, c) implies dist@[gi(g, c)] is None && came@[gi(g, c)] is None && !closed@[gi(g, c)] by {
            lemma_g_index(g, c, c);
        }
    }
    let mut open: Vec<(u128, GCell)> = Vec::new();
    let mut i: usize = 0;
    while i < starts.len()
        invariant
            i <= starts@.len(),
            n == g_size(g),
            2 * g_size(g) <= usize::MAX,
            dist@.len() == n,
            came@.len() == n,
            closed@.len() == n,
            forall|k: int| 0 <= k < n ==> !closed@[k] && came@[k] is None,
            count_true(closed@, n as int) == 0,
            forall|c: GCell|
                #![trigger dist@[gi(g, c)]]
                g_in_bounds(g, c) && dist@[gi(g, c)] is Some ==> dist@[gi(g, c)]->0 == 0 && starts@.contains(c),
            forall|c: GCell|
                #![trigger dist@[gi(g, c)]]
                g_in_bounds(g, c) && (exists|j: int| 0 <= j < i && #[trigger] starts@[j] == c) ==> dist@[gi(g, c)] is Some,
            gopen_inv(g, dist@, closed@, open@),
            forall|j: int| 0 <= j < open@.len() ==> (#[trigger] open@[j]).0 == 0,
        decreases starts@.len() - i,
    {
        let start = starts[i];
        if g.in_bounds(start) {
            let si = g_index_of(g, start);
            let ghost d0 = dist@;
            let ghost o0 = open@;
            dist.set(si, Some(0));
            open.push((0, start));
            proof {
                lemma_g_index(g, start, start);
                assert(starts@[i as int] == start);
                assert forall|c: GCell| #![trigger dist@[gi(g, c)]] g_in_bounds(g, c) && dist@[gi(g, c)] is Some implies dist@[gi(g, c)]->0 == 0 && starts@.contains(c) by {
                    lemma_g_index(g, c, start);
                    if c != start {
                        assert(dist@[gi(g, c)] == d0[gi(g, c)]);
                    }
                }
                assert forall|c: GCell|
                    #![trigger dist@[gi(g, c)]]
                    g_in_bounds(g, c) && (exists|j: int| 0 <= j < i + 1 && #[trigger] starts@[j] == c) implies dist@[gi(g, c)] is Some by {
                    lemma_g_index(g, c, start);
                    if c != start {
                        let j = choose|j: int| 0 <= j < i + 1 && #[trigger] starts@[j] == c;
                        assert(dist@[gi(g, c)] == d0[gi(g, c)]);
                    }
                }
                assert forall|j: int| 0 <= j < open@.len() implies g_in_bounds(g, (#[trigger] open@[j]).1) && dist@[gi(g, open@[j].1)] is Some by {
                    if j < o0.len() {
                        assert(open@[j] == o0[j]);
                        lemma_g_index(g, open@[j].1, start);
                    }
                }
                assert forall|j: int| 0 <= j < open@.len() implies (#[trigger] open@[j]).0 == 0 by {
                    if j < o0.len() {
                        assert(open@[j] == o0[j]);
                    }
                }
                assert forall|c: GCell|
                    #![trigger dist@[gi(g, c)]]
                    g_in_bounds(g, c) && dist@[gi(g, c)] is Some && !closed@[gi(g, c)] implies exists|j: int|
                        0 <= j < open@.len() && (#[trigger] open@[j]).1 == c by {
                    lemma_g_index(g, c, start);
                    if c == start {
                        assert(open@[o0.len() as int].1 == c);
                    } else {
                        assert(dist@[gi(g, c)] == d0[gi(g, c)]);
                        let j = choose|j: int| 0 <= j < o0.len() && (#[trigger] o0[j]).1 == c;
                        assert(open@[j] == o0[j]);
                    }
                }
            }
        } else {
            proof {
                assert forall|c: GCell|
                    #![trigger dist@[gi(g, c)]]
                    g_in_bounds(g, c) && (exists|j: int| 0 <= j < i + 1 && #[trigger] starts@[j] == c) implies dist@[gi(g, c)] is Some by {
                    let j = choose|j: int| 0 <= j < i + 1 && #[trigger] starts@[j] == c;
                    if j == i {
                        assert(c == start);
                    }
                }
            }
        }
        i += 1;
    }
    proof {
        assert forall|c: GCell| #![trigger came@[gi(g, c)]] g_in_bounds(g, c) implies came@[gi(g, c)] is None && !closed@[gi(g, c)] by {
            lemma_g_index(g, c, c);
        }
        assert forall|c: GCell| #![trigger closed@[gi(g, c)]] g_in_bounds(g, c) implies !closed@[gi(g, c)] by {
            lemma_g_index(g, c, c);
        }
        assert forall|c: GCell| g_in_bounds(g, c) && starts@.contains(c) implies (#[trigger] dist@[gi(g, c)]) is Some by {
            let j = choose|j: int| 0 <= j < starts@.len() && starts@[j] == c;
            assert(exists|j: int| 0 <= j < starts@.len() && #[trigger] starts@[j] == c);
        }
        assert(gsearch_inv(g, starts@, goals@, n as int, dist@, came@, closed@, 0, None));
        assert forall|c: GCell| g_in_bounds(g, c) && starts@.contains(c) implies #[trigger] dist@[gi(g, c)] == Some(0u128) by {
            assert(dist@[gi(g, c)] is Some);
        }
        assert forall|c: GCell|
            #![trigger came@[gi(g, c)]]
            g_in_bounds(g, c) && dist@[gi(g, c)] is Some && came@[gi(g, c)] is None implies dist@[gi(g, c)]->0 == 0 by {
        }
        assert(gcost_inv(g, starts@, u, h, q2, q3, dist@, came@, closed@, None));
        assert forall|j: int| 0 <= j < open@.len() implies (#[trigger] open@[j]).0 >= dist@[gi(g, open@[j].1)]->0 by {
            assert(dist@[gi(g, open@[j].1)] is Some);
        }
        assert forall|c: GCell|
            #![trigger dist@[gi(g, c)]]
            g_in_bounds(g, c) && dist@[gi(g, c)] is Some && !closed@[gi(g, c)] implies exists|j: int|
                0 <= j < open@.len() && (#[trigger] open@[j]).1 == c && open@[j].0 == dist@[gi(g, c)]->0 by {
            let j = choose|j: int| 0 <= j < open@.len() && (#[trigger] open@[j]).1 == c;
            assert(open@[j].0 == 0);
        }
        assert(gkeys_inv(g, dist@, closed@, open@));
    }
    let mut closed_cnt: usize = 0;
    while open.len() > 0
        invariant
            2 * g_size(g) <= usize::MAX,
            starts@ == request.starts@,
            goals@ == request.goals@,
            usage@.len() == 2 * g_size(g),
            history@.len() == 2 * g_size(g),
            p2 >= 1,
            gsearch_inv(g, starts@, goals@, n as int, dist@, came@, closed@, closed_cnt as int, None),
            gopen_inv(g, dist@, closed@, open@),
            closed_cnt <= n,
            u == usage@,
            h == history@,
            q2 == p2 as int,
            q3 == p3 as int,
            gcost_inv(g, starts@, u, h, q2, q3, dist@, came@, closed@, None),
            gkeys_inv(g, dist@, closed@, open@),
        decreases n - closed_cnt, open@.len(),
    {
        proof {
            lemma_count_bound(closed@, n as int);
        }
        let k = g_argmin(&open);
        let ghost o0 = open@;
        let (cost, cell) = open.swap_remove(k);
        proof {
            assert(o0[k as int].1 == cell);
            assert(o0[k as int].0 == cost);
            assert(g_in_bounds(g, cell) && dist@[gi(g, cell)] is Some);
            assert(cost >= dist@[gi(g, cell)]->0);
            assert(forall|j: int| 0 <= j < o0.len() ==> cost <= (#[trigger] o0[j]).0);
        }
        if contains_cell(goals, cell) {
            let path = g_reconstruct(
                g,
                starts,
                goals,
                &dist,
                &came,
                cell,
                Ghost(n as int),
                Ghost(closed@),
                Ghost(closed_cnt as int),
                Ghost(u),
                Ghost(h),
                Ghost(q2),
                Ghost(q3),
            );
            proof {
                assert forall|q: Seq<GCell>| #[trigger] valid_gpath(g, starts@, goals@, q) implies gpath_cost(g, u, h, q2, q3, path@)
                    <= gpath_cost(g, u, h, q2, q3, q) by {
                    lemma_gwalk_in_bounds(g, starts@, q, q.len() - 1);
                    assert(!closed@[gi(g, q.last())]);
                    lemma_gwalk_bound(g, starts@, goals@, n as int, u, h, q2, q3, dist@, came@, closed@, closed_cnt as int, o0, cost as int, q);
                }
            }
            return Some(path);
        }
        let ci = g_index_of(g, cell);
        if closed[ci] {
            proof {
                lemma_gopen_after_pop(g, dist@, closed@, o0, open@, k as int, cell);
                lemma_gkeys_after_pop(g, dist@, closed@, o0, open@, k as int, cell);
                assert forall|c: GCell|
                    #![trigger dist@[gi(g, c)]]
                    g_in_bounds(g, c) && dist@[gi(g, c)] is Some && !closed@[gi(g, c)] implies exists|j: int|
                        0 <= j < open@.len() && (#[trigger] open@[j]).1 == c && open@[j].0 == dist@[gi(g, c)]->0 by {
                    assert(c != cell);
                }
                assert(gkeys_inv(g, dist@, closed@, open@));
            }
            continue;
        }
        proof {
            assert forall|q: Seq<GCell>| #[trigger] gwalk(g, starts@, q) && q.last() == cell implies dist@[gi(g, cell)]->0
                <= gpath_cost(g, u, h, q2, q3, q) by {
                lemma_gwalk_bound(g, starts@, goals@, n as int, u, h, q2, q3, dist@, came@, closed@, closed_cnt as int, o0, cost as int, q);
            }
            assert(gd_opt(g, starts@, u, h, q2, q3, dist@, cell));
            lemma_gkeys_after_pop(g, dist@, closed@, o0, open@, k as int, cell);
        }
        let ghost closed0 = closed@;
        closed.set(ci, true);
        proof {
            lemma_count_update(closed0, n as int, ci as int);
            lemma_count_bound(closed@, n as int);
        }
        closed_cnt += 1;
        let current = match dist[ci] {
            Some(v) => v,
            None => 0,
        };
        proof {
            lemma_gopen_after_pop(g, dist@, closed0, o0, open@, k as int, cell);
            lemma_g_after_close(g, starts@, goals@, n as int, dist@, came@, closed0, closed@, (closed_cnt - 1) as int, cell, open@);
            lemma_gcost_after_close(g, starts@, u, h, q2, q3, dist@, came@, closed0, closed@, cell, open@);
        }
        let mut d: usize = 0;
        while d < 4
            invariant
                d <= 4,
                2 * g_size(g) <= usize::MAX,
                usage@.len() == 2 * g_size(g),
                history@.len() == 2 * g_size(g),
                p2 >= 1,
                g_in_bounds(g, cell),
                closed@[gi(g, cell)],
                dist@[gi(g, cell)] == Some(current),
                current <= EDGE_COST_CAP * (closed_cnt - 1),
                closed_cnt >= 1,
                closed_cnt <= n,
                gsearch_inv(g, starts@, goals@, n as int, dist@, came@, closed@, closed_cnt as int, Some(cell)),
                gopen_inv(g, dist@, closed@, open@),
                u == usage@,
                h == history@,
                q2 == p2 as int,
                q3 == p3 as int,
                gcost_inv(g, starts@, u, h, q2, q3, dist@, came@, closed@, Some(cell)),
                gkeys_inv(g, dist@, closed@, open@),
                forall|t: GCell|
                    g_move(g, cell, t) && t.layer == cell.layer && (exists|e: int| 0 <= e < d && t.x - cell.x == (#[trigger] g_dir(e)).0 && t.y - cell.y == g_dir(e).1)
                        ==> (#[trigger] dist@[gi(g, t)]) is Some && (!closed@[gi(g, t)] ==> dist@[gi(g, t)]->0 <= current
                        + spec_edge_cost(g, cell, t, u, h, q2, q3)),
            decreases 4 - d,
        {
            let (dx, dy) = g_direction(d);
            let nb = GCell { x: cell.x + dx, y: cell.y + dy, layer: cell.layer };
            let ghost db = dist@;
            if g.in_bounds(nb) {
                let c = edge_cost(g, cell, nb, usage, history, p2, p3);
                g_relax(g, starts, goals, &mut dist, &mut came, &closed, &mut open, cell, nb, current + c, Ghost(n as int), Ghost(closed_cnt as int), Ghost(u), Ghost(h), Ghost(q2), Ghost(q3));
            }
            proof {
                assert forall|t: GCell|
                    g_move(g, cell, t) && t.layer == cell.layer && (exists|e: int| 0 <= e < d + 1 && t.x - cell.x == (#[trigger] g_dir(e)).0 && t.y - cell.y == g_dir(e).1)
                        implies (#[trigger] dist@[gi(g, t)]) is Some && (!closed@[gi(g, t)] ==> dist@[gi(g, t)]->0 <= current
                        + spec_edge_cost(g, cell, t, u, h, q2, q3)) by {
                    let e = choose|e: int| 0 <= e < d + 1 && t.x - cell.x == (#[trigger] g_dir(e)).0 && t.y - cell.y == g_dir(e).1;
                    if e == d {
                        assert(t == nb);
                    } else {
                        assert(db[gi(g, t)] is Some);
                    }
                }
            }
            d += 1;
        }
        proof {
            assert forall|t: GCell| g_move(g, cell, t) && t.layer == cell.layer implies (#[trigger] dist@[gi(g, t)]) is Some && (!closed@[gi(g, t)] ==> dist@[gi(g, t)]->0 <= current
                + spec_edge_cost(g, cell, t, u, h, q2, q3)) by {
                if t.x == cell.x + 1 {
                    assert(g_dir(0) == (1int, 0int));
                } else if t.x == cell.x - 1 {
                    assert(g_dir(1) == (-1int, 0int));
                } else if t.y == cell.y + 1 {
                    assert(g_dir(2) == (0int, 1int));
                } else {
                    assert(g_dir(3) == (0int, -1int));
                }
            }
        }
        let layers = g.layer_capacity.len();
        let mut other: usize = 0;
        while other < layers
            invariant
                other <= layers,
                layers == g_layers(g),
                2 * g_size(g) <= usize::MAX,
                usage@.len() == 2 * g_size(g),
                history@.len() == 2 * g_size(g),
                p2 >= 1,
                g_in_bounds(g, cell),
                closed@[gi(g, cell)],
                dist@[gi(g, cell)] == Some(current),
                current <= EDGE_COST_CAP * (closed_cnt - 1),
                closed_cnt >= 1,
                closed_cnt <= n,
                gsearch_inv(g, starts@, goals@, n as int, dist@, came@, closed@, closed_cnt as int, Some(cell)),
                gopen_inv(g, dist@, closed@, open@),
                u == usage@,
                h == history@,
                q2 == p2 as int,
                q3 == p3 as int,
                gcost_inv(g, starts@, u, h, q2, q3, dist@, came@, closed@, Some(cell)),
                gkeys_inv(g, dist@, closed@, open@),
                forall|t: GCell| g_move(g, cell, t) && t.layer == cell.layer ==> (#[trigger] dist@[gi(g, t)]) is Some && (!closed@[gi(g, t)] ==> dist@[gi(g, t)]->0 <= current
                    + spec_edge_cost(g, cell, t, u, h, q2, q3)),
                forall|t: GCell| g_move(g, cell, t) && t.layer != cell.layer && t.layer < other ==> (#[trigger] dist@[gi(g, t)]) is Some && (!closed@[gi(g, t)] ==> dist@[gi(g, t)]->0 <= current
                    + spec_edge_cost(g, cell, t, u, h, q2, q3)),
            decreases layers - other,
        {
            let t = GCell { x: cell.x, y: cell.y, layer: other };
            let ghost db = dist@;
            if other != cell.layer {
                let c = edge_cost(g, cell, t, usage, history, p2, p3);
                g_relax(g, starts, goals, &mut dist, &mut came, &closed, &mut open, cell, t, current + c, Ghost(n as int), Ghost(closed_cnt as int), Ghost(u), Ghost(h), Ghost(q2), Ghost(q3));
            }
            proof {
                assert forall|w: GCell| g_move(g, cell, w) && w.layer == cell.layer implies (#[trigger] dist@[gi(g, w)]) is Some && (!closed@[gi(g, w)] ==> dist@[gi(g, w)]->0 <= current
                    + spec_edge_cost(g, cell, w, u, h, q2, q3)) by {
                    assert(db[gi(g, w)] is Some);
                }
                assert forall|w: GCell| g_move(g, cell, w) && w.layer != cell.layer && w.layer < other + 1 implies (#[trigger] dist@[gi(g, w)]) is Some && (!closed@[gi(g, w)] ==> dist@[gi(g, w)]->0 <= current
                    + spec_edge_cost(g, cell, w, u, h, q2, q3)) by {
                    if w.layer == other {
                        assert(w == t);
                    } else {
                        assert(db[gi(g, w)] is Some);
                    }
                }
            }
            other += 1;
        }
        proof {
            assert forall|t: GCell| g_move(g, cell, t) implies (#[trigger] dist@[gi(g, t)]) is Some && (!closed@[gi(g, t)] ==> dist@[gi(g, t)]->0 <= dist@[gi(g, cell)]->0
                + spec_edge_cost(g, cell, t, u, h, q2, q3)) by {
                if t.layer == cell.layer {
                    assert(dist@[gi(g, t)] is Some);
                }
            }
            lemma_g_close_done(g, starts@, goals@, n as int, dist@, came@, closed@, closed_cnt as int, cell);
            lemma_gcost_close_done(g, starts@, u, h, q2, q3, dist@, came@, closed@, cell);
        }
    }
    proof {
        assert forall|p: Seq<GCell>| !valid_gpath(g, starts@, goals@, p) by {
            if valid_gpath(g, starts@, goals@, p) {
                lemma_g_path_known(g, starts@, goals@, n as int, dist@, came@, closed@, closed_cnt as int, p, p.len() - 1);
            }
        }
    }
    None
}


/// The steps `i < j` of `p` that cross the edge of slot `s`.
pub open spec fn path_uses(g: &GlobalGrid, p: Seq<GCell>, s: int, j: int) -> int
    decreases j,
{
    if j <= 0 {
        0
    } else {
        path_uses(g, p, s, j - 1) + if step_slot(g, p[j - 1], p[j]) == Some(s) {
            1int
        } else {
            0int
        }
    }
}

/// How many steps of `p` cross the edge of slot `s`.
pub open spec fn path_total(g: &GlobalGrid, p: Seq<GCell>, s: int) -> int {
    if p.len() == 0 {
        0
    } else {
        path_uses(g, p, s, p.len() - 1)
    }
}

/// How many steps of the first `k` paths cross the edge of slot `s`.
pub open spec fn paths_uses(g: &GlobalGrid, ps: Seq<Option<Vec<GCell>>>, s: int, k: int) -> int
    decreases k,
{
    if k <= 0 {
        0
    } else {
        paths_uses(g, ps, s, k - 1) + match ps[k - 1] {
            Some(p) => path_total(g, p@, s),
            None => 0,
        }
    }
}

/// A count saturated at `i64::MAX`.
pub open spec fn sat_count(v: int) -> int {
    if v > i64::MAX {
        i64::MAX as int
    } else {
        v
    }
}

/// `from`-`to` is an edge along one layer, written from its lower (left or
/// bottom) cell.
pub open spec fn is_edge(g: &GlobalGrid, from: GCell, to: GCell) -> bool {
    &&& g_in_bounds(g, from)
    &&& g_in_bounds(g, to)
    &&& from.layer == to.layer
    &&& ((to.x == from.x + 1 && to.y == from.y) || (to.x == from.x && to.y == from.y + 1))
}

pub open spec fn edge_slot(g: &GlobalGrid, from: GCell, to: GCell) -> int {
    g_index(g, from) * 2 + if to.x == from.x + 1 {
        0int
    } else {
        1int
    }
}

/// How many steps of all of `paths` cross the edge (saturated).
pub open spec fn edge_usage(g: &GlobalGrid, paths: Seq<Option<Vec<GCell>>>, from: GCell, to: GCell) -> int {
    sat_count(paths_uses(g, paths, edge_slot(g, from, to), paths.len() as int))
}

/// The edge is used and carries more paths than its capacity.
pub open spec fn overused(g: &GlobalGrid, paths: Seq<Option<Vec<GCell>>>, from: GCell, to: GCell) -> bool {
    &&& is_edge(g, from, to)
    &&& edge_usage(g, paths, from, to) > 0
    &&& edge_usage(g, paths, from, to) > spec_capacity(g, from, to)
}

/// Exactly the overused edges of `paths`, each once, with their usage and
/// capacity.
pub open spec fn reports_overuse(
    g: &GlobalGrid,
    paths: Seq<Option<Vec<GCell>>>,
    edges: Seq<(GCell, GCell, i64, i64)>,
) -> bool {
    &&& forall|k: int|
        0 <= k < edges.len() ==> {
            let e = #[trigger] edges[k];
            &&& overused(g, paths, e.0, e.1)
            &&& e.2 == edge_usage(g, paths, e.0, e.1)
            &&& e.3 == spec_capacity(g, e.0, e.1)
        }
    &&& forall|a: GCell, b: GCell|
        #![trigger overused(g, paths, a, b)]
        overused(g, paths, a, b) ==> exists|k: int| 0 <= k < edges.len() && (#[trigger] edges[k]).0 == a && edges[k].1 == b
    &&& forall|k1: int, k2: int|
        0 <= k1 < k2 < edges.len() ==> (edges[k1].0, edges[k1].1) != (edges[k2].0, edges[k2].1)
}

/// Every path is valid for its request, and a missing one has none.
pub open spec fn paths_answer(g: &GlobalGrid, requests: Seq<NetRequest>, paths: Seq<Option<Vec<GCell>>>) -> bool {
    &&& paths.len() == requests.len()
    &&& forall|i: int|
        0 <= i < paths.len() ==> match #[trigger] paths[i] {
            Some(p) => valid_gpath(g, requests[i].starts@, requests[i].goals@, p@),
            None => forall|q: Seq<GCell>| !valid_gpath(g, requests[i].starts@, requests[i].goals@, q),
        }
}

proof fn lemma_edge_slot(g: &GlobalGrid, a: GCell, b: GCell, c: GCell, d: GCell)
    requires
        is_edge(g, a, b),
        is_edge(g, c, d),
    ensures
        0 <= edge_slot(g, a, b) < 2 * g_size(g),
        edge_slot(g, a, b) == edge_slot(g, c, d) ==> a == c && b == d,
{
    lemma_g_index(g, a, c);
    lemma_g_index(g, c, c);
    if edge_slot(g, a, b) == edge_slot(g, c, d) {
        let da: int = if b.x == a.x + 1 { 0 } else { 1 };
        let dc: int = if d.x == c.x + 1 { 0 } else { 1 };
        lemma_mixed_radix(g_index(g, a), da, g_index(g, c), dc, 2);
    }
}

/// The slot of a step along one layer is the slot of the edge it crosses.
proof fn lemma_step_edge(g: &GlobalGrid, a: GCell, b: GCell)
    requires
        g_move(g, a, b),
        step_slot(g, a, b) is Some,
    ensures
        ({
            let (f, t) = if (b.x == a.x + 1 || b.y == a.y + 1) {
                (a, b)
            } else {
                (b, a)
            };
            is_edge(g, f, t) && step_slot(g, a, b) == Some(edge_slot(g, f, t))
        }),
{
}

proof fn lemma_paths_uses_prefix(g: &GlobalGrid, ps: Seq<Option<Vec<GCell>>>, qs: Seq<Option<Vec<GCell>>>, s: int, k: int)
    requires
        0 <= k <= ps.len(),
        k <= qs.len(),
        forall|i: int| 0 <= i < k ==> ps[i] == qs[i],
    ensures
        paths_uses(g, ps, s, k) == paths_uses(g, qs, s, k),
    decreases k,
{
    if k > 0 {
        lemma_paths_uses_prefix(g, ps, qs, s, k - 1);
    }
}

proof fn lemma_uses_nonneg(g: &GlobalGrid, ps: Seq<Option<Vec<GCell>>>, s: int, k: int)
    requires
        0 <= k <= ps.len(),
    ensures
        paths_uses(g, ps, s, k) >= 0,
    decreases k,
{
    if k > 0 {
        lemma_uses_nonneg(g, ps, s, k - 1);
        match ps[k - 1] {
            Some(p) => {
                if p@.len() > 0 {
                    lemma_path_uses_nonneg(g, p@, s, p@.len() - 1);
                }
            },
            None => {},
        }
    }
}

proof fn lemma_path_uses_nonneg(g: &GlobalGrid, p: Seq<GCell>, s: int, j: int)
    ensures
        path_uses(g, p, s, j) >= 0,
    decreases j,
{
    if j > 0 {
        lemma_path_uses_nonneg(g, p, s, j - 1);
    }
}

/// The steps of the paths `prev` plus the first `j` steps of `cur` that
/// cross the edge of slot `s`.
pub open spec fn counted(g: &GlobalGrid, prev: Seq<Option<Vec<GCell>>>, cur: Seq<GCell>, j: int, s: int) -> int {
    paths_uses(g, prev, s, prev.len() as int) + path_uses(g, cur, s, j)
}

/// The usage counters hold the saturated counts, and `touched` lists
/// every used edge once, in order of first use.
pub open spec fn usage_inv(
    g: &GlobalGrid,
    usage: Seq<i64>,
    touched: Seq<(GCell, GCell, usize)>,
    prev: Seq<Option<Vec<GCell>>>,
    cur: Seq<GCell>,
    j: int,
) -> bool {
    counts_match(g, usage, prev, cur, j) && touched_ok(g, usage, touched)
}

pub open spec fn counts_match(
    g: &GlobalGrid,
    usage: Seq<i64>,
    prev: Seq<Option<Vec<GCell>>>,
    cur: Seq<GCell>,
    j: int,
) -> bool {
    &&& usage.len() == 2 * g_size(g)
    &&& forall|s: int| 0 <= s < usage.len() ==> #[trigger] slot_ok(g, usage, prev, cur, j, s)
}

/// Slot `s` holds the saturated count of steps crossing its edge.
pub open spec fn slot_ok(
    g: &GlobalGrid,
    usage: Seq<i64>,
    prev: Seq<Option<Vec<GCell>>>,
    cur: Seq<GCell>,
    j: int,
    s: int,
) -> bool {
    counted(g, prev, cur, j, s) >= 0 && usage[s] == sat_count(counted(g, prev, cur, j, s))
}

pub open spec fn touched_ok(g: &GlobalGrid, usage: Seq<i64>, touched: Seq<(GCell, GCell, usize)>) -> bool {
    &&& forall|k: int|
        0 <= k < touched.len() ==> {
            let e = #[trigger] touched[k];
            &&& is_edge(g, e.0, e.1)
            &&& e.2 == edge_slot(g, e.0, e.1)
            &&& usage[e.2 as int] > 0
        }
    &&& forall|s: int| 0 <= s < usage.len() && #[trigger] usage[s] > 0 ==> exists|k: int| 0 <= k < touched.len() && (#[trigger] touched[k]).2 == s
    &&& forall|k1: int, k2: int| 0 <= k1 < k2 < touched.len() ==> touched[k1].2 != touched[k2].2
}

proof fn lemma_usage_inv_same(
    g: &GlobalGrid,
    usage: Seq<i64>,
    touched: Seq<(GCell, GCell, usize)>,
    prev1: Seq<Option<Vec<GCell>>>,
    cur1: Seq<GCell>,
    j1: int,
    prev2: Seq<Option<Vec<GCell>>>,
    cur2: Seq<GCell>,
    j2: int,
)
    requires
        usage_inv(g, usage, touched, prev1, cur1, j1),
        forall|s: int| counted(g, prev1, cur1, j1, s) == counted(g, prev2, cur2, j2, s),
    ensures
        usage_inv(g, usage, touched, prev2, cur2, j2),
{
    assert forall|s: int| 0 <= s < usage.len() implies #[trigger] slot_ok(g, usage, prev2, cur2, j2, s) by {
        assert(slot_ok(g, usage, prev1, cur1, j1, s));
        assert(counted(g, prev1, cur1, j1, s) == counted(g, prev2, cur2, j2, s));
    }
    assert(touched_ok(g, usage, touched));
    assert(counts_match(g, usage, prev2, cur2, j2));
}

/// Counts the steps of `p` into `usage`, recording each edge the first
/// time it is used.
fn add_path_usage(
    g: &GlobalGrid,
    p: &Vec<GCell>,
    usage: &mut Vec<i64>,
    touched: &mut Vec<(GCell, GCell, usize)>,
    Ghost(prev): Ghost<Seq<Option<Vec<GCell>>>>,
)
    requires
        2 * g_size(g) <= usize::MAX,
        forall|i: int| 0 <= i < p@.len() - 1 ==> g_move(g, #[trigger] p@[i], p@[i + 1]),
        usage_inv(g, old(usage)@, old(touched)@, prev, Seq::empty(), 0),
    ensures
        usage_inv(g, final(usage)@, final(touched)@, prev, p@, if p@.len() == 0 { 0 } else { p@.len() - 1 }),
{
    proof {
        assert forall|s: int| counted(g, prev, p@, 0, s) == counted(g, prev, Seq::empty(), 0, s) by {
        }
        lemma_usage_inv_same(g, usage@, touched@, prev, Seq::empty(), 0, prev, p@, 0);
    }
    if p.len() == 0 {
        return;
    }
    let last = p.len() - 1;
    let mut j: usize = 0;
    while j < last
        invariant
            2 * g_size(g) <= usize::MAX,
            last == p@.len() - 1,
            j <= last,
            forall|i: int| 0 <= i < p@.len() - 1 ==> g_move(g, #[trigger] p@[i], p@[i + 1]),
            usage_inv(g, usage@, touched@, prev, p@, j as int),
        decreases last - j,
    {
        let a = p[j];
        let b = p[j + 1];
        proof {
            assert(g_move(g, p@[j as int], p@[j + 1]));
        }
        let ghost u0 = usage@;
        let ghost t0 = touched@;
        match slot_of(g, a, b) {
            Some(si) => {
                proof {
                    lemma_step_edge(g, a, b);
                }
                let (f, t) = if b.x == a.x + 1 || b.y == a.y + 1 { (a, b) } else { (b, a) };
                let old_value = usage[si];
                proof {
                    assert(slot_ok(g, u0, prev, p@, j as int, si as int));
                }
                if old_value == 0 {
                    touched.push((f, t, si));
                }
                if old_value < i64::MAX {
                    usage.set(si, old_value + 1);
                }
                proof {
                    assert(usage@[si as int] > 0);
                    assert forall|s: int| 0 <= s < usage@.len() implies #[trigger] slot_ok(g, usage@, prev, p@, j + 1, s) by {
                        assert(slot_ok(g, u0, prev, p@, j as int, s));
                        if s != si {
                            assert(usage@[s] == u0[s]);
                        }
                    }
                    assert forall|k: int| 0 <= k < touched@.len() implies {
                        let e = #[trigger] touched@[k];
                        &&& is_edge(g, e.0, e.1)
                        &&& e.2 == edge_slot(g, e.0, e.1)
                        &&& usage@[e.2 as int] > 0
                    } by {
                        if k < t0.len() {
                            assert(touched@[k] == t0[k]);
                            let e = t0[k];
                            lemma_edge_slot(g, e.0, e.1, e.0, e.1);
                            assert(u0[e.2 as int] > 0);
                            if e.2 != si {
                                assert(usage@[e.2 as int] == u0[e.2 as int]);
                            }
                        } else {
                            assert(touched@[k] == (f, t, si));
                        }
                    }
                    assert forall|s: int| 0 <= s < usage@.len() && #[trigger] usage@[s] > 0 implies exists|k: int| 0 <= k < touched@.len() && (#[trigger] touched@[k]).2 == s by {
                        if s == si && old_value == 0 {
                            assert(touched@[t0.len() as int].2 == s);
                        } else {
                            if s != si {
                                assert(usage@[s] == u0[s]);
                            }
                            assert(u0[s] > 0);
                            let k = choose|k: int| 0 <= k < t0.len() && (#[trigger] t0[k]).2 == s;
                            assert(touched@[k] == t0[k]);
                        }
                    }
                    assert forall|k1: int, k2: int| 0 <= k1 < k2 < touched@.len() implies touched@[k1].2 != touched@[k2].2 by {
                        if k2 >= t0.len() {
                            assert(touched@[k2].2 == si);
                            assert(touched@[k1] == t0[k1]);
                            assert(u0[t0[k1].2 as int] > 0);
                        } else {
                            assert(touched@[k1] == t0[k1] && touched@[k2] == t0[k2]);
                        }
                    }
                }
            },
            None => {
                proof {
                    assert forall|s: int| 0 <= s < usage@.len() implies #[trigger] slot_ok(g, usage@, prev, p@, j + 1, s) by {
                        assert(slot_ok(g, u0, prev, p@, j as int, s));
                    }
                }
            },
        }
        j += 1;
    }
}


/// The edge usage counters after `paths`: each slot's saturated count of
/// path steps crossing its edge.
pub open spec fn round_usage(g: &GlobalGrid, paths: Seq<Option<Vec<GCell>>>) -> Seq<i64> {
    Seq::new((2 * g_size(g)) as nat, |s: int| sat_count(paths_uses(g, paths, s, paths.len() as int)) as i64)
}

/// Each found path of a round is a least-cost path for its request under
/// the round's costs, with usage counted from the paths found before it.
pub open spec fn round_least_cost(
    g: &GlobalGrid,
    requests: Seq<NetRequest>,
    history: Seq<i64>,
    p2: int,
    p3: int,
    paths: Seq<Option<Vec<GCell>>>,
) -> bool {
    forall|k: int, q: Seq<GCell>|
        #![trigger paths[k], valid_gpath(g, requests[k].starts@, requests[k].goals@, q)]
        0 <= k < paths.len() && paths[k] is Some && valid_gpath(g, requests[k].starts@, requests[k].goals@, q)
            ==> gpath_cost(g, round_usage(g, paths.subrange(0, k)), history, p2, p3, paths[k]->0@) <= gpath_cost(
            g,
            round_usage(g, paths.subrange(0, k)),
            history,
            p2,
            p3,
            q,
        )
}

/// `b` to the power `k`, saturated at `u128::MAX` after each product.
pub open spec fn sat_pow(b: int, k: nat) -> int
    decreases k,
{
    if k == 0 {
        1
    } else {
        sat_u128(sat_pow(b, (k - 1) as nat) * b)
    }
}

/// The history after the first `k` overused edges of a round: each one's
/// slot grows by `HISTORY_INCREMENT` per unit of use over capacity.
pub open spec fn history_after(g: &GlobalGrid, h: Seq<i64>, over: Seq<(GCell, GCell, i64, i64)>, k: int) -> Seq<i64>
    decreases k,
{
    if k <= 0 {
        h
    } else {
        let prev = history_after(g, h, over, k - 1);
        let e = over[k - 1];
        let s = edge_slot(g, e.0, e.1);
        prev.update(s, clamp_i64(prev[s] + HISTORY_INCREMENT * (e.2 - e.3)) as i64)
    }
}

/// The rounds of a negotiation: round `k` runs with history `hs[k]` and
/// costs scaled by `2^k` (present factor `3^k`), finding `ps[k]` and
/// leaving `os[k]` overused; history starts at zero and after each round
/// that left overuse grows by it.
pub open spec fn negotiation_rounds(
    g: &GlobalGrid,
    requests: Seq<NetRequest>,
    hs: Seq<Seq<i64>>,
    ps: Seq<Seq<Option<Vec<GCell>>>>,
    os: Seq<Seq<(GCell, GCell, i64, i64)>>,
) -> bool {
    &&& hs.len() >= ps.len()
    &&& os.len() == ps.len()
    &&& hs.len() >= 1
    &&& hs[0] == Seq::new((2 * g_size(g)) as nat, |s: int| 0i64)
    &&& forall|k: int|
        0 <= k < ps.len() ==> {
            &&& paths_answer(g, requests, #[trigger] ps[k])
            &&& reports_overuse(g, ps[k], os[k])
            &&& round_least_cost(g, requests, hs[k], sat_pow(2, k as nat), sat_pow(3, k as nat), ps[k])
        }
    &&& forall|k: int|
        0 <= k < ps.len() && k + 1 < hs.len() ==> (#[trigger] os[k]).len() > 0 && hs[k + 1] == history_after(
            g,
            hs[k],
            os[k],
            os[k].len() as int,
        )
}

/// One negotiation round: routes every request in order, with usage
/// updated live as each path is committed, then lists the edges left over
/// capacity (with their usage slots, for the history update).
fn negotiation_round(
    g: &GlobalGrid,
    requests: &[NetRequest],
    history: &Vec<i64>,
    p2: u128,
    p3: u128,
) -> (r: (Vec<Option<GlobalPath>>, Vec<(GCell, GCell, i64, i64)>, Vec<usize>))
    requires
        2 * g_size(g) <= usize::MAX,
        history@.len() == 2 * g_size(g),
        p2 >= 1,
    ensures
        paths_answer(g, requests@, r.0@),
        reports_overuse(g, r.0@, r.1@),
        r.2@.len() == r.1@.len(),
        forall|k: int| 0 <= k < r.2@.len() ==> #[trigger] r.2@[k] < 2 * g_size(g),
        forall|k: int| 0 <= k < r.2@.len() ==> #[trigger] r.2@[k] == edge_slot(g, r.1@[k].0, r.1@[k].1),
        round_least_cost(g, requests@, history@, p2 as int, p3 as int, r.0@),
{
    let n2: usize = slot_count(g);
    let mut usage: Vec<i64> = Vec::new();
    while usage.len() < n2
        invariant
            usage@.len() <= n2,
            forall|i: int| 0 <= i < usage@.len() ==> usage@[i] == 0,
        decreases n2 - usage@.len(),
    {
        let ghost u0 = usage@;
        usage.push(0);
        proof {
            assert forall|i: int| 0 <= i < usage@.len() implies usage@[i] == 0 by {
                if i < u0.len() {
                    assert(usage@[i] == u0[i]);
                }
            }
        }
    }
    let mut touched: Vec<(GCell, GCell, usize)> = Vec::new();
    let mut paths: Vec<Option<GlobalPath>> = Vec::new();
    proof {
        assert forall|s: int| 0 <= s < usage@.len() implies #[trigger] slot_ok(g, usage@, paths@, Seq::empty(), 0, s) by {
        }
    }
    let mut i: usize = 0;
    while i < requests.len()
        invariant
            i <= requests@.len(),
            2 * g_size(g) <= usize::MAX,
            history@.len() == 2 * g_size(g),
            p2 >= 1,
            paths@.len() == i,
            usage_inv(g, usage@, touched@, paths@, Seq::empty(), 0),
            forall|k: int|
                0 <= k < i ==> match #[trigger] paths@[k] {
                    Some(p) => valid_gpath(g, requests@[k].starts@, requests@[k].goals@, p@),
                    None => forall|q: Seq<GCell>| !valid_gpath(g, requests@[k].starts@, requests@[k].goals@, q),
                },
            round_least_cost(g, requests@.subrange(0, i as int), history@, p2 as int, p3 as int, paths@),
        decreases requests@.len() - i,
    {
        proof {
            assert forall|s: int| 0 <= s < usage@.len() implies #[trigger] usage@[s] == round_usage(g, paths@)[s] by {
                assert(slot_ok(g, usage@, paths@, Seq::empty(), 0, s));
            }
            assert(usage@ =~= round_usage(g, paths@));
        }
        let path = shortest_path(g, &requests[i], &usage, history, p2, p3);
        let ghost prev = paths@;
        let ghost usage_before = usage@;
        match &path {
            Some(p) => {
                add_path_usage(g, p, &mut usage, &mut touched, Ghost(prev));
            },
            None => {},
        }
        paths.push(path);
        proof {
            let cur = match paths@[i as int] {
                Some(p) => p@,
                None => Seq::<GCell>::empty(),
            };
            let j: int = if cur.len() == 0 { 0 } else { cur.len() - 1 };
            assert forall|s: int| counted(g, prev, cur, j, s) == counted(g, paths@, Seq::empty(), 0, s) by {
                lemma_paths_uses_prefix(g, prev, paths@, s, prev.len() as int);
            }
            if path is None {
                assert(usage_inv(g, usage@, touched@, prev, cur, j));
            }
            lemma_usage_inv_same(g, usage@, touched@, prev, cur, j, paths@, Seq::empty(), 0);
            assert forall|k: int|
                0 <= k < i + 1 implies match #[trigger] paths@[k] {
                    Some(p) => valid_gpath(g, requests@[k].starts@, requests@[k].goals@, p@),
                    None => forall|q: Seq<GCell>| !valid_gpath(g, requests@[k].starts@, requests@[k].goals@, q),
                } by {
                if k < i {
                    assert(paths@[k] == prev[k]);
                }
            }
            let rq = requests@.subrange(0, i + 1);
            assert forall|k: int, q: Seq<GCell>|
                0 <= k < paths@.len() && (#[trigger] paths@[k]) is Some && #[trigger] valid_gpath(g, rq[k].starts@, rq[k].goals@, q)
                    implies gpath_cost(g, round_usage(g, paths@.subrange(0, k)), history@, p2 as int, p3 as int, paths@[k]->0@)
                    <= gpath_cost(g, round_usage(g, paths@.subrange(0, k)), history@, p2 as int, p3 as int, q) by {
                assert(paths@.subrange(0, k) =~= if k < i { prev.subrange(0, k) } else { prev });
                if k < i {
                    assert(paths@[k] == prev[k]);
                    assert(rq[k] == requests@.subrange(0, i as int)[k]);
                } else {
                    assert(rq[k] == requests@[i as int]);
                    assert(usage_before == round_usage(g, prev));
                }
            }
        }
        i += 1;
    }
    proof {
        assert(requests@.subrange(0, requests@.len() as int) =~= requests@);
    }
    let mut over: Vec<(GCell, GCell, i64, i64)> = Vec::new();
    let mut slots: Vec<usize> = Vec::new();
    let mut k: usize = 0;
    while k < touched.len()
        invariant
            k <= touched@.len(),
            2 * g_size(g) <= usize::MAX,
            usage_inv(g, usage@, touched@, paths@, Seq::empty(), 0),
            slots@.len() == over@.len(),
            forall|m: int| 0 <= m < slots@.len() ==> #[trigger] slots@[m] < 2 * g_size(g),
            forall|m: int|
                0 <= m < over@.len() ==> {
                    let e = #[trigger] over@[m];
                    &&& overused(g, paths@, e.0, e.1)
                    &&& e.2 == edge_usage(g, paths@, e.0, e.1)
                    &&& e.3 == spec_capacity(g, e.0, e.1)
                    &&& exists|t: int| 0 <= t < k && #[trigger] touched@[t].2 == edge_slot(g, e.0, e.1)
                },
            forall|t: int|
                0 <= t < k && overused(g, paths@, #[trigger] touched@[t].0, touched@[t].1) ==> exists|m: int|
                    0 <= m < over@.len() && (#[trigger] over@[m]).0 == touched@[t].0 && over@[m].1 == touched@[t].1,
            forall|m1: int, m2: int| 0 <= m1 < m2 < over@.len() ==> (over@[m1].0, over@[m1].1) != (over@[m2].0, over@[m2].1),
            forall|m: int| 0 <= m < slots@.len() ==> #[trigger] slots@[m] == edge_slot(g, over@[m].0, over@[m].1),
        decreases touched@.len() - k,
    {
        let (a, b, s) = touched[k];
        proof {
            assert(touched@[k as int] == (a, b, s));
            lemma_edge_slot(g, a, b, a, b);
            assert(slot_ok(g, usage@, paths@, Seq::empty(), 0, s as int));
        }
        let used = usage[s];
        let cap = g.capacity(a, b);
        let ghost o_prev = over@;
        proof {
            assert(used == edge_usage(g, paths@, a, b));
        }
        if used > cap {
            let ghost o0 = over@;
            over.push((a, b, used, cap));
            slots.push(s);
            proof {
                assert forall|m1: int, m2: int| 0 <= m1 < m2 < over@.len() implies (over@[m1].0, over@[m1].1) != (over@[m2].0, over@[m2].1) by {
                    if m2 == o0.len() {
                        let e = over@[m1];
                        assert(e == o0[m1]);
                        let t = choose|t: int| 0 <= t < k && #[trigger] touched@[t].2 == edge_slot(g, e.0, e.1);
                        if (e.0, e.1) == (a, b) {
                            assert(touched@[t].2 == s);
                        }
                    } else {
                        assert(over@[m1] == o0[m1] && over@[m2] == o0[m2]);
                    }
                }
                assert forall|m: int| 0 <= m < over@.len() implies {
                    let e = #[trigger] over@[m];
                    &&& overused(g, paths@, e.0, e.1)
                    &&& e.2 == edge_usage(g, paths@, e.0, e.1)
                    &&& e.3 == spec_capacity(g, e.0, e.1)
                    &&& exists|t: int| 0 <= t < k + 1 && #[trigger] touched@[t].2 == edge_slot(g, e.0, e.1)
                } by {
                    if m < o0.len() {
                        assert(over@[m] == o0[m]);
                    } else {
                        assert(touched@[k as int].2 == edge_slot(g, a, b));
                    }
                }
            }
        }
        proof {
            assert forall|t: int|
                0 <= t < k + 1 && overused(g, paths@, #[trigger] touched@[t].0, touched@[t].1) implies exists|m: int|
                    0 <= m < over@.len() && (#[trigger] over@[m]).0 == touched@[t].0 && over@[m].1 == touched@[t].1 by {
                if t == k {
                    assert(touched@[t] == (a, b, s));
                    if used > cap {
                        assert(over@[over@.len() - 1] == (a, b, used, cap));
                    } else {
                        assert(!overused(g, paths@, a, b));
                    }
                } else {
                    let m = choose|m: int| 0 <= m < o_prev.len() && (#[trigger] o_prev[m]).0 == touched@[t].0 && o_prev[m].1 == touched@[t].1;
                    assert(over@[m] == o_prev[m]);
                }
            }
        }
        k += 1;
    }
    proof {
        assert forall|a: GCell, b: GCell| #![trigger overused(g, paths@, a, b)] overused(g, paths@, a, b) implies exists|m: int|
            0 <= m < over@.len() && (#[trigger] over@[m]).0 == a && over@[m].1 == b by {
            lemma_edge_slot(g, a, b, a, b);
            let s = edge_slot(g, a, b);
            assert(slot_ok(g, usage@, paths@, Seq::empty(), 0, s));
            assert(usage@[s] > 0);
            let t = choose|t: int| 0 <= t < touched@.len() && (#[trigger] touched@[t]).2 == s;
            lemma_edge_slot(g, touched@[t].0, touched@[t].1, a, b);
        }
    }
    (paths, over, slots)
}

fn slot_count(g: &GlobalGrid) -> (n2: usize)
    requires
        2 * g_size(g) <= usize::MAX,
    ensures
        n2 == 2 * g_size(g),
{
    if g.width <= 0 || g.height <= 0 || g.layer_capacity.len() == 0 {
        proof {
            assert(g_size(g) == 0) by (nonlinear_arith)
                requires
                    g.width <= 0 || g.height <= 0 || g_layers(g) == 0,
                    g_size(g) == (if g.width > 0 { g.width as int } else { 0 }) * (if g.height > 0 { g.height as int } else { 0 }) * g_layers(g),
            {
            }
        }
        0
    } else {
        proof {
            assert(g_size(g) == (g.width as int) * (g.height as int) * g_layers(g));
            assert((g.width as int) * (g.height as int) <= g_size(g)) by (nonlinear_arith)
                requires
                    g.width > 0,
                    g.height > 0,
                    g_layers(g) >= 1,
                    g_size(g) == (g.width as int) * (g.height as int) * g_layers(g),
            {
            }
        }
        2 * ((g.width as usize) * (g.height as usize) * g.layer_capacity.len())
    }
}

/// Runs PathFinder negotiated congestion for up to `max_iterations` rounds
/// (at least one): each round routes every net in order by Dijkstra over a
/// congestion-aware cost, with usage updating live as each net commits;
/// after a round with overuse, the overused edges accumulate history cost
/// (which never decreases) and the present-congestion penalty sharpens.
/// Stops early once no edge is over capacity. Reports the last round's
/// paths and overused edges.
pub fn negotiate(grid: &GlobalGrid, requests: &[NetRequest], max_iterations: usize) -> (r: NegotiationResult)
    requires
        2 * g_size(grid) <= usize::MAX,
    ensures
        paths_answer(grid, requests@, r.paths@),
        reports_overuse(grid, r.paths@, r.overused_edges@),
        r.converged == (r.overused_edges@.len() == 0),
        exists|hs: Seq<Seq<i64>>, ps: Seq<Seq<Option<Vec<GCell>>>>, os: Seq<Seq<(GCell, GCell, i64, i64)>>|
            #[trigger] negotiation_rounds(grid, requests@, hs, ps, os) && hs.len() == ps.len() && ps.len() <= (if max_iterations > 1 {
                max_iterations as int
            } else {
                1
            }) && r.paths@ == ps.last() && r.overused_edges@ == os.last() && (r.converged || ps.len() == (if max_iterations > 1 {
                max_iterations as int
            } else {
                1
            })),
{
    let n2 = slot_count(grid);
    let mut history: Vec<i64> = Vec::new();
    while history.len() < n2
        invariant
            history@.len() <= n2,
            forall|i: int| 0 <= i < history@.len() ==> history@[i] == 0,
        decreases n2 - history@.len(),
    {
        let ghost h0 = history@;
        history.push(0);
        proof {
            assert forall|i: int| 0 <= i < history@.len() implies history@[i] == 0 by {
                if i < h0.len() {
                    assert(history@[i] == h0[i]);
                }
            }
        }
    }
    let ghost mut hs: Seq<Seq<i64>> = seq![history@];
    let ghost mut ps: Seq<Seq<Option<Vec<GCell>>>> = Seq::empty();
    let ghost mut os: Seq<Seq<(GCell, GCell, i64, i64)>> = Seq::empty();
    proof {
        assert(history@ =~= Seq::new((2 * g_size(grid)) as nat, |s: int| 0i64));
    }
    let rounds: usize = if max_iterations > 1 { max_iterations } else { 1 };
    let mut p2: u128 = 1;
    let mut p3: u128 = 1;
    let mut iteration: usize = 0;
    loop
        invariant
            2 * g_size(grid) <= usize::MAX,
            n2 == 2 * g_size(grid),
            history@.len() == n2,
            p2 >= 1,
            iteration < rounds,
            rounds == (if max_iterations > 1 { max_iterations as int } else { 1 }),
            negotiation_rounds(grid, requests@, hs, ps, os),
            hs.len() == iteration + 1,
            ps.len() == iteration,
            hs.last() == history@,
            p2 == sat_pow(2, iteration as nat),
            p3 == sat_pow(3, iteration as nat),
        decreases rounds - iteration,
    {
        let (paths, overused_edges, slots) = negotiation_round(grid, requests, &history, p2, p3);
        let ghost ps1 = ps.push(paths@);
        let ghost os1 = os.push(overused_edges@);
        proof {
            assert forall|k: int|
                0 <= k < ps1.len() implies {
                    &&& paths_answer(grid, requests@, #[trigger] ps1[k])
                    &&& reports_overuse(grid, ps1[k], os1[k])
                    &&& round_least_cost(grid, requests@, hs[k], sat_pow(2, k as nat), sat_pow(3, k as nat), ps1[k])
                } by {
                if k < ps.len() {
                    assert(ps1[k] == ps[k] && os1[k] == os[k]);
                }
            }
            assert forall|k: int| 0 <= k < ps1.len() && k + 1 < hs.len() implies (#[trigger] os1[k]).len() > 0 && hs[k + 1] == history_after(
                grid,
                hs[k],
                os1[k],
                os1[k].len() as int,
            ) by {
                assert(os1[k] == os[k]);
            }
            assert(negotiation_rounds(grid, requests@, hs, ps1, os1));
        }
        if overused_edges.len() == 0 || iteration + 1 >= rounds {
            let converged = overused_edges.len() == 0;
            proof {
                assert(ps1.last() == paths@);
                assert(os1.last() == overused_edges@);
            }
            return NegotiationResult { paths, converged, overused_edges };
        }
        let ghost h_start = history@;
        let mut k: usize = 0;
        while k < slots.len()
            invariant
                k <= slots@.len(),
                slots@.len() == overused_edges@.len(),
                history@.len() == n2,
                n2 == 2 * g_size(grid),
                forall|m: int| 0 <= m < slots@.len() ==> #[trigger] slots@[m] < 2 * g_size(grid),
                forall|m: int| 0 <= m < slots@.len() ==> #[trigger] slots@[m] == edge_slot(grid, overused_edges@[m].0, overused_edges@[m].1),
                history@ == history_after(grid, h_start, overused_edges@, k as int),
            decreases slots@.len() - k,
        {
            let s = slots[k];
            proof {
                assert(slots@[k as int] < 2 * g_size(grid));
            }
            let (_, _, used, capacity) = overused_edges[k];
            let increment = (HISTORY_INCREMENT as i128) * ((used as i128) - (capacity as i128));
            let total = (history[s] as i128) + increment;
            let value: i64 = if total > i64::MAX as i128 {
                i64::MAX
            } else if total < i64::MIN as i128 {
                i64::MIN
            } else {
                total as i64
            };
            history.set(s, value);
            k += 1;
        }
        p2 = sat_mul(p2, 2);
        p3 = sat_mul(p3, 3);
        proof {
            let hs1 = hs.push(history@);
            assert forall|k: int|
                0 <= k < ps1.len() implies {
                    &&& paths_answer(grid, requests@, #[trigger] ps1[k])
                    &&& reports_overuse(grid, ps1[k], os1[k])
                    &&& round_least_cost(grid, requests@, hs1[k], sat_pow(2, k as nat), sat_pow(3, k as nat), ps1[k])
                } by {
                assert(hs1[k] == hs[k]);
            }
            assert forall|k: int| 0 <= k < ps1.len() && k + 1 < hs1.len() implies (#[trigger] os1[k]).len() > 0 && hs1[k + 1] == history_after(
                grid,
                hs1[k],
                os1[k],
                os1[k].len() as int,
            ) by {
                assert(hs1[k] == hs[k]);
                if k + 1 < hs.len() {
                    assert(hs1[k + 1] == hs[k + 1]);
                } else {
                    assert(k == iteration);
                    assert(os1[k] == overused_edges@);
                }
            }
            assert(hs1[0] == hs[0]);
            hs = hs1;
            ps = ps1;
            os = os1;
        }
        iteration += 1;
    }
}

/// Distinct in-bounds cells have distinct flat indices below the size.
pub proof fn lemma_g_index(g: &GlobalGrid, a: GCell, b: GCell)
    requires
        g_in_bounds(g, a),
        g_in_bounds(g, b),
    ensures
        0 <= g_index(g, a) < g_size(g),
        g_index(g, a) == g_index(g, b) ==> a == b,
{
    let w = g.width as int;
    let h = g.height as int;
    let n = g_layers(g);
    lemma_index_bound(a.x as int, a.y as int, a.layer as int, w, h, n);
    lemma_index_bound(b.x as int, b.y as int, b.layer as int, w, h, n);
    if g_index(g, a) == g_index(g, b) {
        lemma_mixed_radix(a.y * w + a.x, a.layer as int, b.y * w + b.x, b.layer as int, n);
        lemma_mixed_radix(a.y as int, a.x as int, b.y as int, b.x as int, w);
    }
}

} // verus!
