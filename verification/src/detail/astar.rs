//! Octilinear A* over an obstacle map, with same-cell layer changes (vias).
//!
//! Costs are integers scaled so a diagonal step costs about sqrt(2) times
//! an orthogonal one; a via is deliberately expensive so a path changes
//! layers only when it must.

use vstd::prelude::*;

use crate::detail::grid::{lemma_state_index, Cell, ObstacleMap};

verus! {

const ORTHO_COST: i64 = 1000;

const DIAG_COST: i64 = 1414;

const VIA_COST: i64 = 5000;

/// A search state: a cell on one layer (by layer index).
#[derive(Debug, Clone, Copy, PartialEq, Eq, Structural, Hash)]
pub struct State {
    pub cell: Cell,
    pub layer: usize,
}

/// The state lies inside `map`'s window on one of its layers.
pub open spec fn in_map(map: &ObstacleMap, s: State) -> bool {
    map.spec_in_bounds(s.cell) && s.layer < map.spec_layer_count()
}

/// A step to one of the eight neighbouring cells on the same layer, into
/// a cell the track map leaves open.
pub open spec fn planar_move(map: &ObstacleMap, s: State, t: State) -> bool {
    &&& t.layer == s.layer
    &&& -1 <= t.cell.x - s.cell.x <= 1
    &&& -1 <= t.cell.y - s.cell.y <= 1
    &&& t.cell != s.cell
    &&& map.spec_in_bounds(t.cell)
    &&& !map.blocked_at(t.cell, t.layer as int)
}

/// The via map leaves `c` open on every layer it covers.
pub open spec fn via_allowed(via_map: &ObstacleMap, c: Cell) -> bool {
    !exists|l: int| 0 <= l < via_map.spec_layer_count() && #[trigger] via_map.blocked_at(c, l)
}

/// A change to another layer of the track map at the same cell, where the
/// via map is open on every layer.
pub open spec fn via_move(map: &ObstacleMap, via_map: &ObstacleMap, s: State, t: State) -> bool {
    &&& t.cell == s.cell
    &&& t.layer != s.layer
    &&& t.layer < map.spec_layer_count()
    &&& via_allowed(via_map, s.cell)
}

pub open spec fn legal_move(map: &ObstacleMap, via_map: &ObstacleMap, s: State, t: State) -> bool {
    planar_move(map, s, t) || via_move(map, via_map, s, t)
}

pub open spec fn is_goal(goals: Seq<(Cell, usize)>, s: State) -> bool {
    exists|j: int| 0 <= j < goals.len() && #[trigger] goals[j] == (s.cell, s.layer)
}

/// A usable start: listed in `starts` and open in the track map.
pub open spec fn is_start(map: &ObstacleMap, starts: Seq<(Cell, usize)>, s: State) -> bool {
    &&& exists|j: int| 0 <= j < starts.len() && #[trigger] starts[j] == (s.cell, s.layer)
    &&& !map.blocked_at(s.cell, s.layer as int)
}

/// `p` leads by legal moves from a usable start to a goal.
pub open spec fn valid_path(
    map: &ObstacleMap,
    via_map: &ObstacleMap,
    starts: Seq<(Cell, usize)>,
    goals: Seq<(Cell, usize)>,
    p: Seq<State>,
) -> bool {
    &&& p.len() >= 1
    &&& is_start(map, starts, p[0])
    &&& is_goal(goals, p.last())
    &&& forall|i: int| 0 <= i < p.len() - 1 ==> legal_move(map, via_map, #[trigger] p[i], p[i + 1])
}

pub open spec fn dir(d: int) -> (int, int) {
    if d == 0 {
        (1, 0)
    } else if d == 1 {
        (-1, 0)
    } else if d == 2 {
        (0, 1)
    } else if d == 3 {
        (0, -1)
    } else if d == 4 {
        (1, 1)
    } else if d == 5 {
        (1, -1)
    } else if d == 6 {
        (-1, 1)
    } else {
        (-1, -1)
    }
}

fn direction(d: usize) -> (r: (i32, i32))
    requires
        d < 8,
    ensures
        r.0 == dir(d as int).0,
        r.1 == dir(d as int).1,
{
    if d == 0 {
        (1, 0)
    } else if d == 1 {
        (-1, 0)
    } else if d == 2 {
        (0, 1)
    } else if d == 3 {
        (0, -1)
    } else if d == 4 {
        (1, 1)
    } else if d == 5 {
        (1, -1)
    } else if d == 6 {
        (-1, 1)
    } else {
        (-1, -1)
    }
}

proof fn lemma_planar_dir(s: State, t: State)
    requires
        -1 <= t.cell.x - s.cell.x <= 1,
        -1 <= t.cell.y - s.cell.y <= 1,
        t.cell != s.cell,
    ensures
        exists|d: int|
            0 <= d < 8 && t.cell.x - s.cell.x == (#[trigger] dir(d)).0 && t.cell.y - s.cell.y == dir(d).1,
{
    let dx = t.cell.x - s.cell.x;
    let dy = t.cell.y - s.cell.y;
    if dx == 1 && dy == 0 {
        assert(dir(0) == (1int, 0int));
    } else if dx == -1 && dy == 0 {
        assert(dir(1) == (-1int, 0int));
    } else if dx == 0 && dy == 1 {
        assert(dir(2) == (0int, 1int));
    } else if dx == 0 && dy == -1 {
        assert(dir(3) == (0int, -1int));
    } else if dx == 1 && dy == 1 {
        assert(dir(4) == (1int, 1int));
    } else if dx == 1 && dy == -1 {
        assert(dir(5) == (1int, -1int));
    } else if dx == -1 && dy == 1 {
        assert(dir(6) == (-1int, 1int));
    } else {
        assert(dx == 0 ==> dy != 0);
        assert(dir(7) == (-1int, -1int));
    }
}

pub open spec fn sidx(map: &ObstacleMap, s: State) -> int {
    map.spec_index(s.cell, s.layer as int)
}

/// The number of `true` entries among the first `n`.
pub open spec fn count_true(s: Seq<bool>, n: int) -> int
    decreases n,
{
    if n <= 0 {
        0
    } else {
        count_true(s, n - 1) + if s[n - 1] {
            1int
        } else {
            0int
        }
    }
}

pub proof fn lemma_count_bound(s: Seq<bool>, n: int)
    requires
        0 <= n,
    ensures
        0 <= count_true(s, n) <= n,
    decreases n,
{
    if n > 0 {
        lemma_count_bound(s, n - 1);
    }
}

pub proof fn lemma_count_update(s: Seq<bool>, n: int, i: int)
    requires
        0 <= i < n <= s.len(),
        !s[i],
    ensures
        count_true(s.update(i, true), n) == count_true(s, n) + 1,
    decreases n,
{
    if n - 1 > i {
        lemma_count_update(s, n - 1, i);
    } else {
        assert(count_true(s.update(i, true), n - 1) == count_true(s, n - 1)) by {
            lemma_count_same(s, s.update(i, true), n - 1);
        }
    }
}

pub proof fn lemma_count_same(a: Seq<bool>, b: Seq<bool>, n: int)
    requires
        n <= a.len(),
        n <= b.len(),
        forall|k: int| 0 <= k < n ==> a[k] == b[k],
    ensures
        count_true(a, n) == count_true(b, n),
    decreases n,
{
    if n > 0 {
        lemma_count_same(a, b, n - 1);
    }
}

/// The octile distance between two cells in cost units: a diagonal step
/// costs 1414, an orthogonal one 1000.
pub open spec fn octile(a: Cell, b: Cell) -> int {
    let dx = if a.x >= b.x {
        a.x - b.x
    } else {
        b.x - a.x
    };
    let dy = if a.y >= b.y {
        a.y - b.y
    } else {
        b.y - a.y
    };
    if dx < dy {
        1414 * dx + 1000 * (dy - dx)
    } else {
        1414 * dy + 1000 * (dx - dy)
    }
}

/// The octile distance from `cell` to the nearest of the first `k` goal
/// cells (0 without goals).
pub open spec fn h_upto(cell: Cell, goals: Seq<(Cell, usize)>, k: int) -> int
    decreases k,
{
    if k <= 0 {
        0
    } else if k == 1 {
        octile(cell, goals[0].0)
    } else {
        let a = h_upto(cell, goals, k - 1);
        let d = octile(cell, goals[k - 1].0);
        if d < a {
            d
        } else {
            a
        }
    }
}

/// The search's estimate of the cost left from `cell`: the octile
/// distance to the nearest goal cell.
pub open spec fn spec_heuristic(cell: Cell, goals: Seq<(Cell, usize)>) -> int {
    h_upto(cell, goals, goals.len() as int)
}

/// The cost of one legal move: 5000 for a via, 1414 for a diagonal step,
/// 1000 for an orthogonal one.
pub open spec fn step_cost(s: State, t: State) -> int {
    if s.cell == t.cell {
        5000
    } else if s.cell.x != t.cell.x && s.cell.y != t.cell.y {
        1414
    } else {
        1000
    }
}

/// The total cost of the moves along `p`.
pub open spec fn path_cost(p: Seq<State>) -> int
    decreases p.len(),
{
    if p.len() <= 1 {
        0
    } else {
        path_cost(p.drop_last()) + step_cost(p[p.len() - 2], p[p.len() - 1])
    }
}

/// `p` leads by legal moves from a usable start.
pub open spec fn walk(map: &ObstacleMap, via_map: &ObstacleMap, starts: Seq<(Cell, usize)>, p: Seq<State>) -> bool {
    &&& p.len() >= 1
    &&& is_start(map, starts, p[0])
    &&& forall|i: int| 0 <= i < p.len() - 1 ==> legal_move(map, via_map, #[trigger] p[i], p[i + 1])
}

fn octile_distance(a: Cell, b: Cell) -> (r: i128)
    ensures
        r == octile(a, b),
        r >= 0,
        r <= 2000 * 0x1_0000_0000,
{
    let dx: i64 = if a.x >= b.x { a.x as i64 - b.x as i64 } else { b.x as i64 - a.x as i64 };
    let dy: i64 = if a.y >= b.y { a.y as i64 - b.y as i64 } else { b.y as i64 - a.y as i64 };
    let (dmin, dmax) = if dx < dy { (dx, dy) } else { (dy, dx) };
    1414i128 * (dmin as i128) + 1000i128 * ((dmax - dmin) as i128)
}

/// The octile distance to the nearest goal cell (0 without goals).
fn heuristic(cell: Cell, goals: &[(Cell, usize)]) -> (r: i128)
    ensures
        r == spec_heuristic(cell, goals@),
        0 <= r <= 2000 * 0x1_0000_0000,
{
    let mut best: i128 = 0;
    let mut i: usize = 0;
    while i < goals.len()
        invariant
            i <= goals@.len(),
            best == h_upto(cell, goals@, i as int),
            0 <= best <= 2000 * 0x1_0000_0000,
        decreases goals@.len() - i,
    {
        let d = octile_distance(cell, goals[i].0);
        if i == 0 || d < best {
            best = d;
        }
        i += 1;
    }
    best
}

proof fn lemma_octile_step(a: Cell, b: Cell, c: Cell)
    requires
        -1 <= a.x - b.x <= 1,
        -1 <= a.y - b.y <= 1,
    ensures
        octile(a, c) <= octile(b, c) + if a.x != b.x && a.y != b.y {
            1414int
        } else {
            1000int
        },
        octile(a, c) >= 0,
{
}

proof fn lemma_h_step(a: Cell, b: Cell, goals: Seq<(Cell, usize)>, k: int)
    requires
        -1 <= a.x - b.x <= 1,
        -1 <= a.y - b.y <= 1,
        0 <= k <= goals.len(),
    ensures
        h_upto(a, goals, k) <= h_upto(b, goals, k) + if a.x != b.x && a.y != b.y {
            1414int
        } else {
            1000int
        },
        h_upto(a, goals, k) >= 0,
    decreases k,
{
    if k >= 1 {
        lemma_octile_step(a, b, goals[k - 1].0);
        lemma_octile_step(b, b, goals[k - 1].0);
    }
    if k > 1 {
        lemma_h_step(a, b, goals, k - 1);
    }
}

/// The estimate never drops by more than a move costs.
proof fn lemma_consistent(map: &ObstacleMap, via_map: &ObstacleMap, goals: Seq<(Cell, usize)>, s: State, t: State)
    requires
        legal_move(map, via_map, s, t),
    ensures
        spec_heuristic(s.cell, goals) <= step_cost(s, t) + spec_heuristic(t.cell, goals),
        spec_heuristic(s.cell, goals) >= 0,
{
    lemma_h_step(s.cell, t.cell, goals, goals.len() as int);
    if s.cell == t.cell {
    } else {
        assert(planar_move(map, s, t));
    }
}

/// A goal's estimate is 0.
proof fn lemma_h_goal(goals: Seq<(Cell, usize)>, s: State)
    requires
        is_goal(goals, s),
    ensures
        spec_heuristic(s.cell, goals) == 0,
{
    let j = choose|j: int| 0 <= j < goals.len() && #[trigger] goals[j] == (s.cell, s.layer);
    lemma_h_le(s.cell, goals, goals.len() as int, j);
    lemma_h_step(s.cell, s.cell, goals, goals.len() as int);
}

proof fn lemma_h_le(cell: Cell, goals: Seq<(Cell, usize)>, k: int, j: int)
    requires
        0 <= j < k <= goals.len(),
    ensures
        h_upto(cell, goals, k) <= octile(cell, goals[j].0),
    decreases k,
{
    if k > 1 && j < k - 1 {
        lemma_h_le(cell, goals, k - 1, j);
    }
}

fn contains_goal(goals: &[(Cell, usize)], s: State) -> (r: bool)
    ensures
        r == is_goal(goals@, s),
{
    let mut i: usize = 0;
    while i < goals.len()
        invariant
            i <= goals@.len(),
            forall|j: int| 0 <= j < i ==> goals@[j] != (s.cell, s.layer),
        decreases goals@.len() - i,
    {
        if goals[i].0 == s.cell && goals[i].1 == s.layer {
            assert(goals@[i as int] == (s.cell, s.layer));
            return true;
        }
        i += 1;
    }
    false
}

/// The best-known cost of `s` is no more than that of any walk to it.
pub open spec fn g_opt(
    map: &ObstacleMap,
    via_map: &ObstacleMap,
    starts: Seq<(Cell, usize)>,
    g: Seq<Option<i128>>,
    s: State,
) -> bool {
    forall|q: Seq<State>|
        #[trigger] walk(map, via_map, starts, q) && q.last() == s ==> g[sidx(map, s)]->0 <= path_cost(q)
}

/// The search bookkeeping: best-known cost, predecessor, and whether a
/// state has been expanded, per flat state index.
pub open spec fn search_inv(
    map: &ObstacleMap,
    via_map: &ObstacleMap,
    starts: Seq<(Cell, usize)>,
    goals: Seq<(Cell, usize)>,
    n: int,
    g: Seq<Option<i128>>,
    came: Seq<Option<State>>,
    closed: Seq<bool>,
    closed_cnt: int,
) -> bool {
    search_inv_x(map, via_map, starts, goals, n, g, came, closed, closed_cnt, None)
}

/// `search_inv`, except that the neighbours of `exempt` (the state being
/// expanded) need not all be known yet.
pub open spec fn search_inv_x(
    map: &ObstacleMap,
    via_map: &ObstacleMap,
    starts: Seq<(Cell, usize)>,
    goals: Seq<(Cell, usize)>,
    n: int,
    g: Seq<Option<i128>>,
    came: Seq<Option<State>>,
    closed: Seq<bool>,
    closed_cnt: int,
    exempt: Option<State>,
) -> bool {
    &&& g.len() == n
    &&& came.len() == n
    &&& closed.len() == n
    &&& n == map.spec_width() * map.spec_height() * map.spec_layer_count()
    &&& map.spec_width() <= i32::MAX
    &&& map.spec_height() <= i32::MAX
    &&& closed_cnt == count_true(closed, n)
    &&& forall|s: State|
        #![trigger g[sidx(map, s)]]
        in_map(map, s) && g[sidx(map, s)] is Some ==> 0 <= g[sidx(map, s)]->0 <= 5000 * closed_cnt
    &&& forall|s: State|
        #![trigger came[sidx(map, s)]]
        in_map(map, s) && came[sidx(map, s)] is Some ==> {
            let p = came[sidx(map, s)]->0;
            &&& g[sidx(map, s)] is Some
            &&& in_map(map, p)
            &&& g[sidx(map, p)] is Some
            &&& g[sidx(map, p)]->0 < g[sidx(map, s)]->0
            &&& g[sidx(map, p)]->0 + step_cost(p, s) <= g[sidx(map, s)]->0
            &&& legal_move(map, via_map, p, s)
        }
    &&& forall|s: State|
        #![trigger came[sidx(map, s)]]
        in_map(map, s) && g[sidx(map, s)] is Some && came[sidx(map, s)] is None ==> is_start(
            map,
            starts,
            s,
        )
    &&& forall|s: State|
        #![trigger closed[sidx(map, s)]]
        in_map(map, s) && closed[sidx(map, s)] ==> {
            &&& g[sidx(map, s)] is Some
            &&& !is_goal(goals, s)
            &&& g_opt(map, via_map, starts, g, s)
            &&& exempt != Some(s) ==> forall|t: State|
                legal_move(map, via_map, s, t) ==> in_map(map, t) && (#[trigger] g[sidx(map, t)]) is Some && (
                closed[sidx(map, t)] || g[sidx(map, t)]->0 <= g[sidx(map, s)]->0 + step_cost(s, t))
        }
    &&& forall|s: State|
        in_map(map, s) && is_start(map, starts, s) ==> (#[trigger] g[sidx(map, s)]) == Some(0i128)
}

/// Every unexpanded state with a known cost has an entry in the open list
/// whose priority is that cost plus the estimate; every entry names a
/// state with a known cost, with a priority no lower than that sum.
pub open spec fn open_inv(
    map: &ObstacleMap,
    n: int,
    g: Seq<Option<i128>>,
    closed: Seq<bool>,
    open: Seq<(i128, State)>,
    goals: Seq<(Cell, usize)>,
) -> bool {
    &&& forall|j: int|
        0 <= j < open.len() ==> in_map(map, (#[trigger] open[j]).1) && g[sidx(map, open[j].1)] is Some && open[j].0
            >= g[sidx(map, open[j].1)]->0 + spec_heuristic(open[j].1.cell, goals)
    &&& forall|s: State|
        #![trigger g[sidx(map, s)]]
        in_map(map, s) && g[sidx(map, s)] is Some && !closed[sidx(map, s)] ==> exists|j: int|
            0 <= j < open.len() && (#[trigger] open[j]).1 == s && open[j].0 == g[sidx(map, s)]->0 + spec_heuristic(
                s.cell,
                goals,
            )
}

/// Finds a path from any of `starts` to any of `goals` over `map`, with
/// 8-directional moves within a layer (gated by `map`) and same-cell layer
/// changes (gated by `via_map` on every layer, since a through via occupies
/// the whole stack). Returns the visited states from start to goal along
/// a path of minimum cost (`step_cost`), or `None` when no such path
/// exists.
pub fn search(
    map: &ObstacleMap,
    via_map: &ObstacleMap,
    starts: &[(Cell, usize)],
    goals: &[(Cell, usize)],
) -> (r: Option<Vec<State>>)
    ensures
        r matches Some(p) ==> valid_path(map, via_map, starts@, goals@, p@),
        r matches Some(p) ==> forall|q: Seq<State>|
            valid_path(map, via_map, starts@, goals@, q) ==> path_cost(p@) <= #[trigger] path_cost(q),
        r is None ==> forall|p: Seq<State>| !valid_path(map, via_map, starts@, goals@, p),
{
    if starts.len() == 0 || goals.len() == 0 {
        proof {
            assert forall|p: Seq<State>| !valid_path(map, via_map, starts@, goals@, p) by {
                if valid_path(map, via_map, starts@, goals@, p) {
                    let j = choose|j: int| 0 <= j < goals@.len() && #[trigger] goals@[j] == (p.last().cell, p.last().layer);
                    let i = choose|i: int| 0 <= i < starts@.len() && #[trigger] starts@[i] == (p[0].cell, p[0].layer);
                }
            }
        }
        return None;
    }
    let n = map.state_count();
    let mut g: Vec<Option<i128>> = Vec::new();
    let mut came: Vec<Option<State>> = Vec::new();
    let mut closed: Vec<bool> = Vec::new();
    while g.len() < n
        invariant
            g@.len() <= n,
            came@.len() == g@.len(),
            closed@.len() == g@.len(),
            forall|i: int| 0 <= i < g@.len() ==> g@[i] == None::<i128>,
            forall|i: int| 0 <= i < g@.len() ==> came@[i] == None::<State>,
            forall|i: int| 0 <= i < g@.len() ==> !closed@[i],
        decreases n - g@.len(),
    {
        let ghost g0 = g@;
        let ghost c0 = came@;
        let ghost k0 = closed@;
        g.push(None);
        came.push(None);
        closed.push(false);
        proof {
            assert forall|i: int| 0 <= i < g@.len() implies g@[i] == None::<i128> by {
                if i < g0.len() {
                    assert(g@[i] == g0[i]);
                }
            }
            assert forall|i: int| 0 <= i < g@.len() implies came@[i] == None::<State> by {
                if i < g0.len() {
                    assert(came@[i] == c0[i]);
                }
            }
            assert forall|i: int| 0 <= i < g@.len() implies !closed@[i] by {
                if i < g0.len() {
                    assert(closed@[i] == k0[i]);
                }
            }
        }
    }
    proof {
        lemma_count_zero(closed@, n as int);
        assert forall|s: State| #![trigger g@[sidx(map, s)]] in_map(map, s) implies g@[sidx(map, s)] is None by {
            lemma_state_index(map, s.cell, s.layer as int, s.cell, s.layer as int);
        }
    }
    let mut open: Vec<(i128, State)> = Vec::new();
    let mut closed_cnt: usize = 0;
    let mut i: usize = 0;
    while i < starts.len()
        invariant
            i <= starts@.len(),
            n == map.spec_width() * map.spec_height() * map.spec_layer_count(),
            g@.len() == n,
            came@.len() == n,
            closed@.len() == n,
            closed_cnt == 0,
            forall|k: int| 0 <= k < n ==> !closed@[k] && came@[k] is None,
            count_true(closed@, n as int) == 0,
            forall|s: State|
                #![trigger g@[sidx(map, s)]]
                in_map(map, s) && g@[sidx(map, s)] is Some ==> g@[sidx(map, s)]->0 == 0 && is_start(map, starts@, s),
            forall|s: State|
                #![trigger g@[sidx(map, s)]]
                in_map(map, s) && (exists|j: int| 0 <= j < i && #[trigger] starts@[j] == (s.cell, s.layer))
                    && !map.blocked_at(s.cell, s.layer as int) ==> g@[sidx(map, s)] is Some,
            open_inv(map, n as int, g@, closed@, open@, goals@),
        decreases starts@.len() - i,
    {
        let (cell, layer) = starts[i];
        if !map.is_blocked(cell, layer) {
            let state = State { cell, layer };
            let si = map.state_index(cell, layer);
            let ghost g0 = g@;
            let ghost o0 = open@;
            g.set(si, Some(0));
            open.push((heuristic(cell, goals), state));
            proof {
                assert(starts@[i as int] == (state.cell, state.layer));
                assert forall|s: State| #![trigger g@[sidx(map, s)]] in_map(map, s) && g@[sidx(map, s)] is Some implies g@[sidx(map, s)]->0 == 0 && is_start(map, starts@, s) by {
                    lemma_state_index(map, s.cell, s.layer as int, state.cell, state.layer as int);
                    if s != state {
                        assert(g@[sidx(map, s)] == g0[sidx(map, s)]);
                    }
                }
                assert forall|s: State|
                    #![trigger g@[sidx(map, s)]]
                    in_map(map, s) && (exists|j: int| 0 <= j < i + 1 && #[trigger] starts@[j] == (s.cell, s.layer))
                        && !map.blocked_at(s.cell, s.layer as int) implies g@[sidx(map, s)] is Some by {
                    lemma_state_index(map, s.cell, s.layer as int, state.cell, state.layer as int);
                    if s != state {
                        let j = choose|j: int| 0 <= j < i + 1 && #[trigger] starts@[j] == (s.cell, s.layer);
                        if j == i {
                            assert(s.cell == cell && s.layer == layer);
                        }
                    }
                }
                assert forall|j: int| 0 <= j < open@.len() implies in_map(map, (#[trigger] open@[j]).1) && g@[sidx(map, open@[j].1)] is Some
                    && open@[j].0 >= g@[sidx(map, open@[j].1)]->0 + spec_heuristic(open@[j].1.cell, goals@) by {
                    if j < o0.len() {
                        assert(open@[j] == o0[j]);
                        lemma_state_index(map, open@[j].1.cell, open@[j].1.layer as int, state.cell, state.layer as int);
                    }
                }
                assert forall|s: State|
                    #![trigger g@[sidx(map, s)]]
                    in_map(map, s) && g@[sidx(map, s)] is Some && !closed@[sidx(map, s)] implies exists|j: int|
                        0 <= j < open@.len() && (#[trigger] open@[j]).1 == s && open@[j].0 == g@[sidx(map, s)]->0 + spec_heuristic(
                            s.cell,
                            goals@,
                        ) by {
                    lemma_state_index(map, s.cell, s.layer as int, state.cell, state.layer as int);
                    if s == state {
                        assert(open@[o0.len() as int].1 == s);
                    } else {
                        assert(g@[sidx(map, s)] == g0[sidx(map, s)]);
                        let j = choose|j: int| 0 <= j < o0.len() && (#[trigger] o0[j]).1 == s && o0[j].0 == g0[sidx(map, s)]->0 + spec_heuristic(
                            s.cell,
                            goals@,
                        );
                        assert(open@[j] == o0[j]);
                    }
                }
            }
        } else {
            proof {
                assert forall|s: State|
                    #![trigger g@[sidx(map, s)]]
                    in_map(map, s) && (exists|j: int| 0 <= j < i + 1 && #[trigger] starts@[j] == (s.cell, s.layer))
                        && !map.blocked_at(s.cell, s.layer as int) implies g@[sidx(map, s)] is Some by {
                    let j = choose|j: int| 0 <= j < i + 1 && #[trigger] starts@[j] == (s.cell, s.layer);
                    if j == i {
                        assert(s.cell == cell && s.layer == layer);
                    }
                }
            }
        }
        i += 1;
    }
    proof {
        assert forall|s: State| #![trigger came@[sidx(map, s)]] in_map(map, s) implies came@[sidx(map, s)] is None && !closed@[sidx(map, s)] by {
            lemma_state_index(map, s.cell, s.layer as int, s.cell, s.layer as int);
        }
        assert forall|s: State| #![trigger closed@[sidx(map, s)]] in_map(map, s) implies !closed@[sidx(map, s)] by {
            lemma_state_index(map, s.cell, s.layer as int, s.cell, s.layer as int);
        }
        assert forall|s: State| in_map(map, s) && is_start(map, starts@, s) implies (#[trigger] g@[sidx(map, s)]) == Some(0i128) by {
            let j = choose|j: int| 0 <= j < starts@.len() && #[trigger] starts@[j] == (s.cell, s.layer);
            assert(exists|j: int| 0 <= j < starts@.len() && #[trigger] starts@[j] == (s.cell, s.layer));
        }
        assert(search_inv(map, via_map, starts@, goals@, n as int, g@, came@, closed@, 0));
    }
    while open.len() > 0
        invariant
            search_inv(map, via_map, starts@, goals@, n as int, g@, came@, closed@, closed_cnt as int),
            open_inv(map, n as int, g@, closed@, open@, goals@),
            closed_cnt <= n,
        decreases n - closed_cnt, open@.len(),
    {
        proof {
            lemma_count_bound(closed@, n as int);
        }
        let k = argmin(&open);
        let ghost o0 = open@;
        let (_, state) = open.swap_remove(k);
        proof {
            assert(o0[k as int].1 == state);
            assert(open_inv(map, n as int, g@, closed@, o0, goals@));
            assert(in_map(map, o0[k as int].1));
        }
        if contains_goal(goals, state) {
            let path = reconstruct(map, via_map, starts, goals, &g, &came, state, Ghost(n as int), Ghost(closed@), Ghost(closed_cnt as int));
            proof {
                assert forall|q: Seq<State>| valid_path(map, via_map, starts@, goals@, q) implies path_cost(path@) <= path_cost(q) by {
                    let z = q.last();
                    assert(walk(map, via_map, starts@, q));
                    lemma_walk_in_map(map, via_map, starts@, q, q.len() - 1);
                    assert(!closed@[sidx(map, z)]);
                    lemma_walk_bound(map, via_map, starts@, goals@, n as int, g@, came@, closed@, closed_cnt as int, o0, o0[k as int].0, q);
                    lemma_h_goal(goals@, z);
                    lemma_h_step(state.cell, state.cell, goals@, goals@.len() as int);
                }
            }
            return Some(path);
        }
        let si = map.state_index(state.cell, state.layer);
        if closed[si] {
            proof {
                lemma_open_after_pop(map, n as int, g@, closed@, o0, open@, k as int, state, goals@);
            }
            continue;
        }
        let ghost closed0 = closed@;
        closed.set(si, true);
        proof {
            lemma_count_update(closed0, n as int, si as int);
            lemma_count_bound(closed@, n as int);
        }
        closed_cnt += 1;
        let current_g = match g[si] {
            Some(v) => v,
            None => 0,
        };
        proof {
            lemma_open_after_pop(map, n as int, g@, closed0, o0, open@, k as int, state, goals@);
            assert forall|q: Seq<State>| #[trigger] walk(map, via_map, starts@, q) && q.last() == state implies g@[sidx(map, state)]->0
                <= path_cost(q) by {
                lemma_walk_bound(map, via_map, starts@, goals@, n as int, g@, came@, closed0, (closed_cnt - 1) as int, o0, o0[k as int].0, q);
            }
            lemma_after_close(map, via_map, starts@, goals@, n as int, g@, came@, closed0, closed@, (closed_cnt - 1) as int, state, open@);
        }
        let mut d: usize = 0;
        while d < 8
            invariant
                d <= 8,
                in_map(map, state),
                closed@[sidx(map, state)],
                g@[sidx(map, state)] == Some(current_g),
                0 <= current_g <= 5000 * (closed_cnt - 1),
                closed_cnt >= 1,
                search_inv_x(map, via_map, starts@, goals@, n as int, g@, came@, closed@, closed_cnt as int, Some(state)),
                open_inv(map, n as int, g@, closed@, open@, goals@),
                forall|t: State|
                    planar_move(map, state, t) && (exists|e: int| 0 <= e < d && t.cell.x - state.cell.x == (#[trigger] dir(e)).0 && t.cell.y - state.cell.y == dir(e).1)
                        ==> (#[trigger] g@[sidx(map, t)]) is Some && (closed@[sidx(map, t)] || g@[sidx(map, t)]->0 <= current_g
                        + step_cost(state, t)),
            decreases 8 - d,
        {
            let (dx, dy) = direction(d);
            let nc = Cell { x: state.cell.x + dx, y: state.cell.y + dy };
            let ghost gb = g@;
            if map.in_bounds(nc) && !map.is_blocked(nc, state.layer) {
                let step: i128 = if dx != 0 && dy != 0 { DIAG_COST as i128 } else { ORTHO_COST as i128 };
                let t = State { cell: nc, layer: state.layer };
                proof {
                    assert(step == step_cost(state, t));
                }
                relax(map, via_map, starts, goals, &mut g, &mut came, &closed, &mut open, state, t, current_g + step, Ghost(n as int), Ghost(closed_cnt as int));
            }
            proof {
                assert forall|t: State|
                    planar_move(map, state, t) && (exists|e: int| 0 <= e < d + 1 && t.cell.x - state.cell.x == (#[trigger] dir(e)).0 && t.cell.y - state.cell.y == dir(e).1)
                        implies (#[trigger] g@[sidx(map, t)]) is Some && (closed@[sidx(map, t)] || g@[sidx(map, t)]->0 <= current_g
                        + step_cost(state, t)) by {
                    let e = choose|e: int| 0 <= e < d + 1 && t.cell.x - state.cell.x == (#[trigger] dir(e)).0 && t.cell.y - state.cell.y == dir(e).1;
                    if e == d {
                        assert(t.cell == nc);
                        assert(t == (State { cell: nc, layer: state.layer }));
                    } else {
                        assert(gb[sidx(map, t)] is Some);
                    }
                }
            }
            d += 1;
        }
        proof {
            assert forall|t: State| planar_move(map, state, t) implies (#[trigger] g@[sidx(map, t)]) is Some && (closed@[sidx(map, t)]
                || g@[sidx(map, t)]->0 <= current_g + step_cost(state, t)) by {
                lemma_planar_dir(state, t);
            }
        }
        let via_ok = !via_map.blocked_on_any_layer(state.cell);
        if via_ok {
            let nl = map.layer_count();
            let mut other: usize = 0;
            while other < nl
                invariant
                    other <= nl,
                    nl == map.spec_layer_count(),
                    via_allowed(via_map, state.cell),
                    in_map(map, state),
                    closed@[sidx(map, state)],
                    g@[sidx(map, state)] == Some(current_g),
                    0 <= current_g <= 5000 * (closed_cnt - 1),
                    closed_cnt >= 1,
                    search_inv_x(map, via_map, starts@, goals@, n as int, g@, came@, closed@, closed_cnt as int, Some(state)),
                    open_inv(map, n as int, g@, closed@, open@, goals@),
                    forall|t: State|
                        planar_move(map, state, t) ==> (#[trigger] g@[sidx(map, t)]) is Some && (closed@[sidx(map, t)] || g@[sidx(
                            map,
                            t,
                        )]->0 <= current_g + step_cost(state, t)),
                    forall|t: State|
                        via_move(map, via_map, state, t) && t.layer < other ==> (#[trigger] g@[sidx(map, t)]) is Some && (
                        closed@[sidx(map, t)] || g@[sidx(map, t)]->0 <= current_g + step_cost(state, t)),
                decreases nl - other,
            {
                let t = State { cell: state.cell, layer: other };
                let ghost gb = g@;
                if other != state.layer {
                    relax(map, via_map, starts, goals, &mut g, &mut came, &closed, &mut open, state, t, current_g + VIA_COST as i128, Ghost(n as int), Ghost(closed_cnt as int));
                }
                proof {
                    assert forall|u: State| planar_move(map, state, u) implies (#[trigger] g@[sidx(map, u)]) is Some && (closed@[sidx(
                        map,
                        u,
                    )] || g@[sidx(map, u)]->0 <= current_g + step_cost(state, u)) by {
                        assert(gb[sidx(map, u)] is Some);
                    }
                    assert forall|u: State| via_move(map, via_map, state, u) && u.layer < other + 1 implies (#[trigger] g@[sidx(map, u)]) is Some
                        && (closed@[sidx(map, u)] || g@[sidx(map, u)]->0 <= current_g + step_cost(state, u)) by {
                        if u.layer == other {
                            assert(u == t);
                        } else {
                            assert(gb[sidx(map, u)] is Some);
                        }
                    }
                }
                other += 1;
            }
        }
        proof {
            lemma_close_done(map, via_map, starts@, goals@, n as int, g@, came@, closed@, closed_cnt as int, state);
        }
    }
    proof {
        lemma_no_path(map, via_map, starts@, goals@, n as int, g@, came@, closed@, closed_cnt as int);
    }
    None
}


fn argmin(open: &Vec<(i128, State)>) -> (k: usize)
    requires
        open@.len() > 0,
    ensures
        k < open@.len(),
        forall|j: int| 0 <= j < open@.len() ==> open@[k as int].0 <= (#[trigger] open@[j]).0,
{
    let mut best: usize = 0;
    let mut i: usize = 1;
    while i < open.len()
        invariant
            best < open@.len(),
            1 <= i <= open@.len(),
            forall|j: int| 0 <= j < i ==> open@[best as int].0 <= (#[trigger] open@[j]).0,
        decreases open@.len() - i,
    {
        if open[i].0 < open[best].0 {
            best = i;
        }
        i += 1;
    }
    best
}

/// The open list with one entry removed still satisfies the open-list
/// invariant for every state but the removed entry's.
proof fn lemma_open_after_pop(
    map: &ObstacleMap,
    n: int,
    g: Seq<Option<i128>>,
    closed: Seq<bool>,
    o0: Seq<(i128, State)>,
    o1: Seq<(i128, State)>,
    k: int,
    state: State,
    goals: Seq<(Cell, usize)>,
)
    requires
        open_inv(map, n, g, closed, o0, goals),
        0 <= k < o0.len(),
        o0[k].1 == state,
        o1 == o0.update(k, o0.last()).drop_last(),
    ensures
        forall|j: int|
            0 <= j < o1.len() ==> in_map(map, (#[trigger] o1[j]).1) && g[sidx(map, o1[j].1)] is Some && o1[j].0
                >= g[sidx(map, o1[j].1)]->0 + spec_heuristic(o1[j].1.cell, goals),
        forall|s: State|
            #![trigger g[sidx(map, s)]]
            in_map(map, s) && g[sidx(map, s)] is Some && !closed[sidx(map, s)] && s != state ==> exists|j: int|
                0 <= j < o1.len() && (#[trigger] o1[j]).1 == s && o1[j].0 == g[sidx(map, s)]->0 + spec_heuristic(s.cell, goals),
{
    assert forall|j: int| 0 <= j < o1.len() implies in_map(map, (#[trigger] o1[j]).1) && g[sidx(map, o1[j].1)] is Some && o1[j].0
        >= g[sidx(map, o1[j].1)]->0 + spec_heuristic(o1[j].1.cell, goals) by {
        if j == k {
            assert(o1[j] == o0[o0.len() - 1]);
        } else {
            assert(o1[j] == o0[j]);
        }
    }
    assert forall|s: State|
        #![trigger g[sidx(map, s)]]
        in_map(map, s) && g[sidx(map, s)] is Some && !closed[sidx(map, s)] && s != state implies exists|j: int|
            0 <= j < o1.len() && (#[trigger] o1[j]).1 == s && o1[j].0 == g[sidx(map, s)]->0 + spec_heuristic(s.cell, goals) by {
        let j = choose|j: int| 0 <= j < o0.len() && (#[trigger] o0[j]).1 == s && o0[j].0 == g[sidx(map, s)]->0 + spec_heuristic(
            s.cell,
            goals,
        );
        if j == o0.len() - 1 {
            if k < o0.len() - 1 {
                assert(o1[k] == o0[j]);
            }
        } else {
            assert(j != k);
            assert(o1[j] == o0[j]);
        }
    }
}

/// How far state `a` is from `b` in orthogonal moves, plus one for a
/// change of layer.
pub open spec fn state_distance(a: State, b: State) -> nat {
    ((if a.cell.x <= b.cell.x { b.cell.x - a.cell.x } else { a.cell.x - b.cell.x }) + (if a.cell.y <= b.cell.y {
        b.cell.y - a.cell.y
    } else {
        a.cell.y - b.cell.y
    }) + (if a.layer == b.layer {
        0int
    } else {
        1int
    })) as nat
}

/// A walk from `a` to `b`: a via to `b`'s layer, then along x, then along
/// y.
pub open spec fn straight_walk(a: State, b: State) -> Seq<State>
    decreases state_distance(a, b),
{
    if a.layer != b.layer {
        seq![a] + straight_walk(State { layer: b.layer, ..a }, b)
    } else if a.cell.x < b.cell.x {
        seq![a] + straight_walk(State { cell: Cell { x: (a.cell.x + 1) as i32, ..a.cell }, ..a }, b)
    } else if a.cell.x > b.cell.x {
        seq![a] + straight_walk(State { cell: Cell { x: (a.cell.x - 1) as i32, ..a.cell }, ..a }, b)
    } else if a.cell.y < b.cell.y {
        seq![a] + straight_walk(State { cell: Cell { y: (a.cell.y + 1) as i32, ..a.cell }, ..a }, b)
    } else if a.cell.y > b.cell.y {
        seq![a] + straight_walk(State { cell: Cell { y: (a.cell.y - 1) as i32, ..a.cell }, ..a }, b)
    } else {
        seq![a]
    }
}

/// Nothing blocks the track map in its window, and nothing blocks the via
/// map at any cell of that window.
pub open spec fn maps_open(map: &ObstacleMap, via_map: &ObstacleMap) -> bool {
    &&& forall|c: Cell, l: int| map.spec_in_bounds(c) && 0 <= l < map.spec_layer_count() ==> !#[trigger] map.blocked_at(c, l)
    &&& forall|c: Cell, l: int| map.spec_in_bounds(c) && 0 <= l < via_map.spec_layer_count() ==> !#[trigger] via_map.blocked_at(c, l)
}

proof fn lemma_straight_walk(map: &ObstacleMap, via_map: &ObstacleMap, a: State, b: State)
    requires
        maps_open(map, via_map),
        in_map(map, a),
        in_map(map, b),
    ensures
        straight_walk(a, b).len() >= 1,
        straight_walk(a, b)[0] == a,
        straight_walk(a, b).last() == b,
        forall|i: int|
            0 <= i < straight_walk(a, b).len() - 1 ==> legal_move(map, via_map, #[trigger] straight_walk(a, b)[i], straight_walk(a, b)[i + 1]),
    decreases state_distance(a, b),
{
    let p = straight_walk(a, b);
    if a != b {
        let n: State = if a.layer != b.layer {
            State { layer: b.layer, ..a }
        } else if a.cell.x < b.cell.x {
            State { cell: Cell { x: (a.cell.x + 1) as i32, ..a.cell }, ..a }
        } else if a.cell.x > b.cell.x {
            State { cell: Cell { x: (a.cell.x - 1) as i32, ..a.cell }, ..a }
        } else if a.cell.y < b.cell.y {
            State { cell: Cell { y: (a.cell.y + 1) as i32, ..a.cell }, ..a }
        } else {
            State { cell: Cell { y: (a.cell.y - 1) as i32, ..a.cell }, ..a }
        };
        if a.layer != b.layer {
            if !via_allowed(via_map, a.cell) {
                let l = choose|l: int| 0 <= l < via_map.spec_layer_count() && #[trigger] via_map.blocked_at(a.cell, l);
                assert(!via_map.blocked_at(a.cell, l));
            }
            assert(via_move(map, via_map, a, n));
        } else {
            assert(!map.blocked_at(n.cell, n.layer as int));
            assert(planar_move(map, a, n));
        }
        lemma_straight_walk(map, via_map, n, b);
        let q = straight_walk(n, b);
        assert(p == seq![a] + q);
        assert forall|i: int| 0 <= i < p.len() - 1 implies legal_move(map, via_map, #[trigger] p[i], p[i + 1]) by {
            if i == 0 {
                assert(p[0] == a && p[1] == q[0]);
            } else {
                assert(p[i] == q[i - 1] && p[i + 1] == q[i]);
            }
        }
    }
}

/// With nothing blocking, the detail search always has a path: from any
/// usable start state to any goal state of the window, changing layer up
/// or down where needed.
pub proof fn lemma_open_window_routable(
    map: &ObstacleMap,
    via_map: &ObstacleMap,
    starts: Seq<(Cell, usize)>,
    goals: Seq<(Cell, usize)>,
    a: State,
    b: State,
)
    requires
        maps_open(map, via_map),
        in_map(map, a),
        in_map(map, b),
        starts.contains((a.cell, a.layer)),
        goals.contains((b.cell, b.layer)),
    ensures
        exists|p: Seq<State>| valid_path(map, via_map, starts, goals, p),
{
    lemma_straight_walk(map, via_map, a, b);
    let p = straight_walk(a, b);
    let j = choose|j: int| 0 <= j < starts.len() && starts[j] == (a.cell, a.layer);
    let k = choose|k: int| 0 <= k < goals.len() && goals[k] == (b.cell, b.layer);
    assert(is_start(map, starts, p[0]));
    assert(is_goal(goals, p.last()));
    assert(valid_path(map, via_map, starts, goals, p));
}

proof fn lemma_start_in_map(map: &ObstacleMap, s: State)
    requires
        !map.blocked_at(s.cell, s.layer as int),
    ensures
        in_map(map, s),
{
}

/// The states along a walk lie in the map.
proof fn lemma_walk_in_map(map: &ObstacleMap, via_map: &ObstacleMap, starts: Seq<(Cell, usize)>, q: Seq<State>, i: int)
    requires
        walk(map, via_map, starts, q),
        0 <= i < q.len(),
    ensures
        in_map(map, q[i]),
    decreases i,
{
    if i > 0 {
        lemma_walk_in_map(map, via_map, starts, q, i - 1);
        assert(legal_move(map, via_map, q[i - 1], q[i]));
    } else {
        lemma_start_in_map(map, q[0]);
    }
}

/// With the smallest priority `pmin` in the open list, no walk to a state
/// not yet expanded costs less than `pmin` minus that state's estimate.
proof fn lemma_walk_bound(
    map: &ObstacleMap,
    via_map: &ObstacleMap,
    starts: Seq<(Cell, usize)>,
    goals: Seq<(Cell, usize)>,
    n: int,
    g: Seq<Option<i128>>,
    came: Seq<Option<State>>,
    closed: Seq<bool>,
    cnt: int,
    open: Seq<(i128, State)>,
    pmin: i128,
    q: Seq<State>,
)
    requires
        search_inv(map, via_map, starts, goals, n, g, came, closed, cnt),
        open_inv(map, n, g, closed, open, goals),
        forall|j: int| 0 <= j < open.len() ==> pmin <= (#[trigger] open[j]).0,
        walk(map, via_map, starts, q),
        !closed[sidx(map, q.last())],
    ensures
        pmin <= path_cost(q) + spec_heuristic(q.last().cell, goals),
    decreases q.len(),
{
    let z = q.last();
    lemma_walk_in_map(map, via_map, starts, q, q.len() - 1);
    if q.len() == 1 {
        assert(g[sidx(map, z)] == Some(0i128));
        let j = choose|j: int| 0 <= j < open.len() && (#[trigger] open[j]).1 == z && open[j].0 == g[sidx(map, z)]->0 + spec_heuristic(
            z.cell,
            goals,
        );
        assert(pmin <= open[j].0);
    } else {
        let r = q.drop_last();
        let y = r.last();
        assert(y == q[q.len() - 2]);
        assert(legal_move(map, via_map, q[q.len() - 2], q[q.len() - 1]));
        assert(walk(map, via_map, starts, r)) by {
            assert forall|i: int| 0 <= i < r.len() - 1 implies legal_move(map, via_map, #[trigger] r[i], r[i + 1]) by {
                assert(r[i] == q[i] && r[i + 1] == q[i + 1]);
                assert(legal_move(map, via_map, q[i], q[i + 1]));
            }
        }
        lemma_walk_in_map(map, via_map, starts, q, q.len() - 2);
        lemma_consistent(map, via_map, goals, y, z);
        if closed[sidx(map, y)] {
            assert(g_opt(map, via_map, starts, g, y));
            assert(g[sidx(map, y)]->0 <= path_cost(r));
            assert(g[sidx(map, z)] is Some && g[sidx(map, z)]->0 <= g[sidx(map, y)]->0 + step_cost(y, z));
            let j = choose|j: int| 0 <= j < open.len() && (#[trigger] open[j]).1 == z && open[j].0 == g[sidx(map, z)]->0 + spec_heuristic(
                z.cell,
                goals,
            );
            assert(pmin <= open[j].0);
        } else {
            lemma_walk_bound(map, via_map, starts, goals, n, g, came, closed, cnt, open, pmin, r);
        }
    }
}

/// Closing a popped state that is not a goal keeps the invariants, with
/// that state's neighbours still to be relaxed.
proof fn lemma_after_close(
    map: &ObstacleMap,
    via_map: &ObstacleMap,
    starts: Seq<(Cell, usize)>,
    goals: Seq<(Cell, usize)>,
    n: int,
    g: Seq<Option<i128>>,
    came: Seq<Option<State>>,
    closed0: Seq<bool>,
    closed1: Seq<bool>,
    cnt0: int,
    state: State,
    open: Seq<(i128, State)>,
)
    requires
        search_inv(map, via_map, starts, goals, n, g, came, closed0, cnt0),
        in_map(map, state),
        g[sidx(map, state)] is Some,
        !closed0[sidx(map, state)],
        !is_goal(goals, state),
        g_opt(map, via_map, starts, g, state),
        closed1 == closed0.update(sidx(map, state), true),
        count_true(closed1, n) == cnt0 + 1,
        forall|j: int|
            0 <= j < open.len() ==> in_map(map, (#[trigger] open[j]).1) && g[sidx(map, open[j].1)] is Some && open[j].0
                >= g[sidx(map, open[j].1)]->0 + spec_heuristic(open[j].1.cell, goals),
        forall|s: State|
            #![trigger g[sidx(map, s)]]
            in_map(map, s) && g[sidx(map, s)] is Some && !closed0[sidx(map, s)] && s != state ==> exists|j: int|
                0 <= j < open.len() && (#[trigger] open[j]).1 == s && open[j].0 == g[sidx(map, s)]->0 + spec_heuristic(s.cell, goals),
    ensures
        search_inv_x(map, via_map, starts, goals, n, g, came, closed1, cnt0 + 1, Some(state)),
        open_inv(map, n, g, closed1, open, goals),
{
    lemma_state_index(map, state.cell, state.layer as int, state.cell, state.layer as int);
    assert(closed1[sidx(map, state)]);
    assert forall|s: State| #![trigger closed1[sidx(map, s)]] in_map(map, s) && s != state implies closed1[sidx(map, s)] == closed0[sidx(map, s)] by {
        lemma_state_index(map, s.cell, s.layer as int, state.cell, state.layer as int);
        assert(sidx(map, s) != sidx(map, state));
    }
    assert forall|s: State|
        #![trigger g[sidx(map, s)]]
        in_map(map, s) && g[sidx(map, s)] is Some ==> 0 <= g[sidx(map, s)]->0 <= 5000 * (cnt0 + 1) by {
    }
    assert forall|s: State|
        #![trigger closed1[sidx(map, s)]]
        in_map(map, s) && closed1[sidx(map, s)] implies {
            &&& g[sidx(map, s)] is Some
            &&& !is_goal(goals, s)
            &&& g_opt(map, via_map, starts, g, s)
            &&& Some(state) != Some(s) ==> forall|t: State|
                legal_move(map, via_map, s, t) ==> in_map(map, t) && (#[trigger] g[sidx(map, t)]) is Some && (
                closed1[sidx(map, t)] || g[sidx(map, t)]->0 <= g[sidx(map, s)]->0 + step_cost(s, t))
        } by {
        if s != state {
            assert(closed0[sidx(map, s)]);
            assert forall|t: State| legal_move(map, via_map, s, t) implies in_map(map, t) && (#[trigger] g[sidx(map, t)]) is Some && (
                closed1[sidx(map, t)] || g[sidx(map, t)]->0 <= g[sidx(map, s)]->0 + step_cost(s, t)) by {
                assert(in_map(map, t));
                if t != state {
                    assert(closed1[sidx(map, t)] == closed0[sidx(map, t)]);
                }
            }
        }
    }
    assert forall|s: State|
        #![trigger g[sidx(map, s)]]
        in_map(map, s) && g[sidx(map, s)] is Some && !closed1[sidx(map, s)] implies exists|j: int|
            0 <= j < open.len() && (#[trigger] open[j]).1 == s && open[j].0 == g[sidx(map, s)]->0 + spec_heuristic(s.cell, goals) by {
        if s == state {
            assert(closed1[sidx(map, s)]);
        } else {
            assert(!closed0[sidx(map, s)]);
        }
    }
}

/// Once every legal move out of `state` has a known cost no more than its
/// cost plus the move's (or leads to an expanded state), the full
/// invariant holds again.
proof fn lemma_close_done(
    map: &ObstacleMap,
    via_map: &ObstacleMap,
    starts: Seq<(Cell, usize)>,
    goals: Seq<(Cell, usize)>,
    n: int,
    g: Seq<Option<i128>>,
    came: Seq<Option<State>>,
    closed: Seq<bool>,
    cnt: int,
    state: State,
)
    requires
        search_inv_x(map, via_map, starts, goals, n, g, came, closed, cnt, Some(state)),
        in_map(map, state),
        forall|t: State|
            planar_move(map, state, t) ==> (#[trigger] g[sidx(map, t)]) is Some && (closed[sidx(map, t)] || g[sidx(map, t)]->0
                <= g[sidx(map, state)]->0 + step_cost(state, t)),
        via_allowed(via_map, state.cell) ==> forall|t: State|
            via_move(map, via_map, state, t) ==> (#[trigger] g[sidx(map, t)]) is Some && (closed[sidx(map, t)] || g[sidx(
                map,
                t,
            )]->0 <= g[sidx(map, state)]->0 + step_cost(state, t)),
    ensures
        search_inv(map, via_map, starts, goals, n, g, came, closed, cnt),
{
    assert forall|s: State|
        #![trigger closed[sidx(map, s)]]
        in_map(map, s) && closed[sidx(map, s)] implies {
            &&& g[sidx(map, s)] is Some
            &&& !is_goal(goals, s)
            &&& g_opt(map, via_map, starts, g, s)
            &&& None::<State> != Some(s) ==> forall|t: State|
                legal_move(map, via_map, s, t) ==> in_map(map, t) && (#[trigger] g[sidx(map, t)]) is Some && (
                closed[sidx(map, t)] || g[sidx(map, t)]->0 <= g[sidx(map, s)]->0 + step_cost(s, t))
        } by {
        if s == state {
            assert forall|t: State| legal_move(map, via_map, s, t) implies in_map(map, t) && (#[trigger] g[sidx(map, t)]) is Some && (
                closed[sidx(map, t)] || g[sidx(map, t)]->0 <= g[sidx(map, s)]->0 + step_cost(s, t)) by {
                if planar_move(map, s, t) {
                    assert(g[sidx(map, t)] is Some);
                } else {
                    assert(via_move(map, via_map, s, t));
                }
            }
        }
    }
}

/// With nothing left to expand, every state with a known cost is closed,
/// and the closed states are closed under legal moves and contain no
/// goal: no path from a usable start reaches a goal.
proof fn lemma_no_path(
    map: &ObstacleMap,
    via_map: &ObstacleMap,
    starts: Seq<(Cell, usize)>,
    goals: Seq<(Cell, usize)>,
    n: int,
    g: Seq<Option<i128>>,
    came: Seq<Option<State>>,
    closed: Seq<bool>,
    cnt: int,
)
    requires
        search_inv(map, via_map, starts, goals, n, g, came, closed, cnt),
        open_inv(map, n, g, closed, Seq::<(i128, State)>::empty(), goals),
    ensures
        forall|p: Seq<State>| !valid_path(map, via_map, starts, goals, p),
{
    assert forall|p: Seq<State>| !valid_path(map, via_map, starts, goals, p) by {
        if valid_path(map, via_map, starts, goals, p) {
            assert(in_map(map, p[0]));
            lemma_path_known(map, via_map, starts, goals, n, g, came, closed, cnt, p, p.len() - 1);
            let last = p[p.len() - 1];
            if !closed[sidx(map, last)] {
                let j = choose|j: int| 0 <= j < 0 && (#[trigger] Seq::<(i128, State)>::empty()[j]).1 == last;
            }
        }
    }
}

proof fn lemma_path_known(
    map: &ObstacleMap,
    via_map: &ObstacleMap,
    starts: Seq<(Cell, usize)>,
    goals: Seq<(Cell, usize)>,
    n: int,
    g: Seq<Option<i128>>,
    came: Seq<Option<State>>,
    closed: Seq<bool>,
    cnt: int,
    p: Seq<State>,
    i: int,
)
    requires
        search_inv(map, via_map, starts, goals, n, g, came, closed, cnt),
        open_inv(map, n, g, closed, Seq::<(i128, State)>::empty(), goals),
        valid_path(map, via_map, starts, goals, p),
        0 <= i < p.len(),
    ensures
        in_map(map, p[i]),
        g[sidx(map, p[i])] is Some,
        closed[sidx(map, p[i])],
    decreases i,
{
    if i == 0 {
        assert(in_map(map, p[0]));
        assert(g[sidx(map, p[0])] is Some);
    } else {
        lemma_path_known(map, via_map, starts, goals, n, g, came, closed, cnt, p, i - 1);
        assert(legal_move(map, via_map, p[i - 1], p[i]));
    }
    if !closed[sidx(map, p[i])] {
        let s = p[i];
        assert(exists|j: int| 0 <= j < 0 && (#[trigger] Seq::<(i128, State)>::empty()[j]).1 == s);
    }
}

/// Lowers the known cost of `to` to `tentative` (reached from `from`) when
/// that improves on it and `to` has not been expanded, and queues `to`.
fn relax(
    map: &ObstacleMap,
    via_map: &ObstacleMap,
    starts: &[(Cell, usize)],
    goals: &[(Cell, usize)],
    g: &mut Vec<Option<i128>>,
    came: &mut Vec<Option<State>>,
    closed: &Vec<bool>,
    open: &mut Vec<(i128, State)>,
    from: State,
    to: State,
    tentative: i128,
    Ghost(n): Ghost<int>,
    Ghost(cnt): Ghost<int>,
)
    requires
        search_inv_x(map, via_map, starts@, goals@, n, old(g)@, old(came)@, closed@, cnt, Some(from)),
        open_inv(map, n, old(g)@, closed@, old(open)@, goals@),
        in_map(map, from),
        in_map(map, to),
        legal_move(map, via_map, from, to),
        old(g)@[sidx(map, from)] is Some,
        tentative == old(g)@[sidx(map, from)]->0 + step_cost(from, to),
        tentative <= 5000 * cnt,
        cnt <= usize::MAX,
    ensures
        search_inv_x(map, via_map, starts@, goals@, n, final(g)@, final(came)@, closed@, cnt, Some(from)),
        open_inv(map, n, final(g)@, closed@, final(open)@, goals@),
        final(g)@[sidx(map, to)] is Some,
        closed@[sidx(map, to)] || final(g)@[sidx(map, to)]->0 <= tentative,
        final(g)@[sidx(map, from)] == old(g)@[sidx(map, from)],
        forall|s: State|
            in_map(map, s) && (#[trigger] old(g)@[sidx(map, s)]) is Some ==> final(g)@[sidx(map, s)] is Some
                && final(g)@[sidx(map, s)]->0 <= old(g)@[sidx(map, s)]->0,
{
    let ti = map.state_index(to.cell, to.layer);
    let improved = !closed[ti] && match g[ti] {
        None => true,
        Some(existing) => tentative < existing,
    };
    if improved {
        let ghost g0 = g@;
        let ghost c0 = came@;
        let ghost o0 = open@;
        g.set(ti, Some(tentative));
        came.set(ti, Some(from));
        open.push((tentative + heuristic(to.cell, goals), to));
        proof {
            assert forall|s: State| #![trigger g@[sidx(map, s)]] in_map(map, s) && s != to implies g@[sidx(map, s)] == g0[sidx(map, s)] && came@[sidx(map, s)] == c0[sidx(map, s)] by {
                lemma_state_index(map, s.cell, s.layer as int, to.cell, to.layer as int);
            }
            assert(from != to);
            lemma_relax_inv(map, via_map, starts@, goals@, n, g0, c0, g@, came@, closed@, cnt, from, to, tentative, o0, open@);
        }
    } else {
        proof {
            if !closed@[sidx(map, to)] {
                assert(g@[sidx(map, to)] is Some);
            } else {
                lemma_state_index(map, to.cell, to.layer as int, to.cell, to.layer as int);
            }
        }
    }
}

proof fn lemma_relax_inv(
    map: &ObstacleMap,
    via_map: &ObstacleMap,
    starts: Seq<(Cell, usize)>,
    goals: Seq<(Cell, usize)>,
    n: int,
    g0: Seq<Option<i128>>,
    c0: Seq<Option<State>>,
    g1: Seq<Option<i128>>,
    c1: Seq<Option<State>>,
    closed: Seq<bool>,
    cnt: int,
    from: State,
    to: State,
    tentative: i128,
    o0: Seq<(i128, State)>,
    o1: Seq<(i128, State)>,
)
    requires
        search_inv_x(map, via_map, starts, goals, n, g0, c0, closed, cnt, Some(from)),
        open_inv(map, n, g0, closed, o0, goals),
        in_map(map, from),
        in_map(map, to),
        from != to,
        legal_move(map, via_map, from, to),
        g0[sidx(map, from)] is Some,
        tentative == g0[sidx(map, from)]->0 + step_cost(from, to),
        tentative <= 5000 * cnt,
        !closed[sidx(map, to)],
        g0[sidx(map, to)] is None || tentative < g0[sidx(map, to)]->0,
        g1 == g0.update(sidx(map, to), Some(tentative)),
        c1 == c0.update(sidx(map, to), Some(from)),
        o1.len() == o0.len() + 1,
        forall|j: int| 0 <= j < o0.len() ==> o1[j] == o0[j],
        o1[o0.len() as int].0 == tentative + spec_heuristic(to.cell, goals),
        o1[o0.len() as int].1 == to,
        forall|s: State| #![trigger g1[sidx(map, s)]] in_map(map, s) && s != to ==> g1[sidx(map, s)] == g0[sidx(map, s)] && c1[sidx(map, s)] == c0[sidx(map, s)],
    ensures
        search_inv_x(map, via_map, starts, goals, n, g1, c1, closed, cnt, Some(from)),
        open_inv(map, n, g1, closed, o1, goals),
{
    lemma_state_index(map, to.cell, to.layer as int, to.cell, to.layer as int);
    assert(g1[sidx(map, to)] == Some(tentative));
    assert(tentative > 0);
    assert forall|s: State| #![trigger g1[sidx(map, s)]] in_map(map, s) && g0[sidx(map, s)] is Some implies g1[sidx(map, s)] is Some
        && g1[sidx(map, s)]->0 <= g0[sidx(map, s)]->0 by {
        if s != to {
            assert(g1[sidx(map, s)] == g0[sidx(map, s)]);
        }
    }
    assert forall|s: State|
        #![trigger c1[sidx(map, s)]]
        in_map(map, s) && c1[sidx(map, s)] is Some implies {
            let p = c1[sidx(map, s)]->0;
            &&& g1[sidx(map, s)] is Some
            &&& in_map(map, p)
            &&& g1[sidx(map, p)] is Some
            &&& g1[sidx(map, p)]->0 < g1[sidx(map, s)]->0
            &&& g1[sidx(map, p)]->0 + step_cost(p, s) <= g1[sidx(map, s)]->0
            &&& legal_move(map, via_map, p, s)
        } by {
        if s == to {
            assert(c1[sidx(map, s)] == Some(from));
            assert(g1[sidx(map, from)] == g0[sidx(map, from)]);
        } else {
            assert(c1[sidx(map, s)] == c0[sidx(map, s)]);
            let p = c0[sidx(map, s)]->0;
            if p == to {
                assert(g1[sidx(map, p)]->0 < g0[sidx(map, p)]->0);
            } else {
                assert(g1[sidx(map, p)] == g0[sidx(map, p)]);
            }
        }
    }
    assert forall|s: State|
        #![trigger c1[sidx(map, s)]]
        in_map(map, s) && g1[sidx(map, s)] is Some && c1[sidx(map, s)] is None implies is_start(map, starts, s) by {
        if s == to {
            assert(c1[sidx(map, s)] == Some(from));
        }
    }
    assert forall|s: State|
        #![trigger closed[sidx(map, s)]]
        in_map(map, s) && closed[sidx(map, s)] implies {
            &&& g1[sidx(map, s)] is Some
            &&& !is_goal(goals, s)
            &&& g_opt(map, via_map, starts, g1, s)
            &&& Some(from) != Some(s) ==> forall|t: State|
                legal_move(map, via_map, s, t) ==> in_map(map, t) && (#[trigger] g1[sidx(map, t)]) is Some && (
                closed[sidx(map, t)] || g1[sidx(map, t)]->0 <= g1[sidx(map, s)]->0 + step_cost(s, t))
        } by {
        assert(s != to);
        assert(g1[sidx(map, s)] == g0[sidx(map, s)]);
        assert(g_opt(map, via_map, starts, g0, s));
        assert forall|q: Seq<State>| #[trigger] walk(map, via_map, starts, q) && q.last() == s implies g1[sidx(map, s)]->0 <= path_cost(q) by {
            assert(g0[sidx(map, s)]->0 <= path_cost(q));
        }
        if Some(from) != Some(s) {
            assert forall|t: State| legal_move(map, via_map, s, t) implies in_map(map, t) && (#[trigger] g1[sidx(map, t)]) is Some && (
                closed[sidx(map, t)] || g1[sidx(map, t)]->0 <= g1[sidx(map, s)]->0 + step_cost(s, t)) by {
                assert(g0[sidx(map, t)] is Some);
                if t != to {
                    assert(g1[sidx(map, t)] == g0[sidx(map, t)]);
                }
            }
        }
    }
    assert forall|s: State| in_map(map, s) && is_start(map, starts, s) implies (#[trigger] g1[sidx(map, s)]) == Some(0i128) by {
        assert(g0[sidx(map, s)] == Some(0i128));
        if s == to {
            assert(false);
        }
    }
    assert forall|j: int| 0 <= j < o1.len() implies in_map(map, (#[trigger] o1[j]).1) && g1[sidx(map, o1[j].1)] is Some && o1[j].0
        >= g1[sidx(map, o1[j].1)]->0 + spec_heuristic(o1[j].1.cell, goals) by {
        if j < o0.len() {
            assert(o1[j] == o0[j]);
            if o1[j].1 != to {
                assert(g1[sidx(map, o1[j].1)] == g0[sidx(map, o1[j].1)]);
            }
        }
    }
    assert forall|s: State|
        #![trigger g1[sidx(map, s)]]
        in_map(map, s) && g1[sidx(map, s)] is Some && !closed[sidx(map, s)] implies exists|j: int|
            0 <= j < o1.len() && (#[trigger] o1[j]).1 == s && o1[j].0 == g1[sidx(map, s)]->0 + spec_heuristic(s.cell, goals) by {
        if s == to {
            assert(o1[o0.len() as int].1 == s);
        } else {
            assert(g0[sidx(map, s)] is Some);
            let j = choose|j: int| 0 <= j < o0.len() && (#[trigger] o0[j]).1 == s && o0[j].0 == g0[sidx(map, s)]->0 + spec_heuristic(
                s.cell,
                goals,
            );
            assert(o1[j] == o0[j]);
        }
    }
}

/// Follows the predecessor links back from `goal` to a start and returns
/// the states in path order.
fn reconstruct(
    map: &ObstacleMap,
    via_map: &ObstacleMap,
    starts: &[(Cell, usize)],
    goals: &[(Cell, usize)],
    g: &Vec<Option<i128>>,
    came: &Vec<Option<State>>,
    goal: State,
    Ghost(n): Ghost<int>,
    Ghost(closed): Ghost<Seq<bool>>,
    Ghost(cnt): Ghost<int>,
) -> (p: Vec<State>)
    requires
        search_inv(map, via_map, starts@, goals@, n, g@, came@, closed, cnt),
        in_map(map, goal),
        g@[sidx(map, goal)] is Some,
        is_goal(goals@, goal),
    ensures
        valid_path(map, via_map, starts@, goals@, p@),
        path_cost(p@) <= g@[sidx(map, goal)]->0,
{
    let mut rev: Vec<State> = Vec::new();
    rev.push(goal);
    let mut cur = goal;
    let ghost mut fwd: Seq<State> = seq![goal];
    loop
        invariant
            search_inv(map, via_map, starts@, goals@, n, g@, came@, closed, cnt),
            in_map(map, cur),
            g@[sidx(map, cur)] is Some,
            g@[sidx(map, goal)] is Some,
            rev@.len() >= 1,
            rev@[0] == goal,
            rev@.last() == cur,
            forall|i: int| 0 <= i < rev@.len() - 1 ==> legal_move(map, via_map, #[trigger] rev@[i + 1], rev@[i]),
            fwd.len() == rev@.len(),
            forall|i: int| 0 <= i < fwd.len() ==> #[trigger] fwd[i] == rev@[rev@.len() - 1 - i],
            path_cost(fwd) + g@[sidx(map, cur)]->0 <= g@[sidx(map, goal)]->0,
        ensures
            came@[sidx(map, cur)] is None,
        decreases g@[sidx(map, cur)]->0,
    {
        let ci = map.state_index(cur.cell, cur.layer);
        match came[ci] {
            Some(prev) => {
                let ghost r0 = rev@;
                rev.push(prev);
                proof {
                    assert forall|i: int| 0 <= i < rev@.len() - 1 implies legal_move(map, via_map, #[trigger] rev@[i + 1], rev@[i]) by {
                        if i < r0.len() - 1 {
                            assert(rev@[i] == r0[i] && rev@[i + 1] == r0[i + 1]);
                        } else {
                            assert(rev@[i] == cur && rev@[i + 1] == prev);
                        }
                    }
                    assert(fwd[0] == cur);
                    lemma_cost_prepend(prev, fwd);
                    let f2 = seq![prev] + fwd;
                    assert forall|i: int| 0 <= i < f2.len() implies #[trigger] f2[i] == rev@[rev@.len() - 1 - i] by {
                        if i > 0 {
                            assert(f2[i] == fwd[i - 1]);
                        }
                    }
                    fwd = f2;
                }
                cur = prev;
            },
            None => {
                break;
            },
        }
    }
    let mut path: Vec<State> = Vec::new();
    let len = rev.len();
    let mut k: usize = len;
    while k > 0
        invariant
            k <= len,
            len == rev@.len(),
            path@.len() == len - k,
            forall|i: int| 0 <= i < path@.len() ==> path@[i] == rev@[len - 1 - i],
        decreases k,
    {
        k -= 1;
        path.push(rev[k]);
    }
    proof {
        assert(path@[0] == cur);
        assert(path@.last() == goal);
        assert(path@ =~= fwd);
        assert forall|i: int| 0 <= i < path@.len() - 1 implies legal_move(map, via_map, #[trigger] path@[i], path@[i + 1]) by {
            let j = len - 2 - i;
            assert(legal_move(map, via_map, rev@[j + 1], rev@[j]));
        }
    }
    path
}

proof fn lemma_cost_prepend(x: State, f: Seq<State>)
    requires
        f.len() >= 1,
    ensures
        path_cost(seq![x] + f) == step_cost(x, f[0]) + path_cost(f),
    decreases f.len(),
{
    let h = seq![x] + f;
    assert(h.len() == f.len() + 1);
    assert(h[h.len() - 1] == f[f.len() - 1]);
    assert(h[h.len() - 2] == if f.len() == 1 { x } else { f[f.len() - 2] });
    if f.len() == 1 {
        assert(h.drop_last() =~= seq![x]);
        assert(path_cost(seq![x]) == 0);
        assert(path_cost(f) == 0);
    } else {
        assert(h.drop_last() =~= seq![x] + f.drop_last());
        lemma_cost_prepend(x, f.drop_last());
        assert(f.drop_last()[0] == f[0]);
    }
}

pub proof fn lemma_count_zero(s: Seq<bool>, n: int)
    requires
        n <= s.len(),
        forall|i: int| 0 <= i < n ==> !s[i],
    ensures
        count_true(s, n) == 0,
    decreases n,
{
    if n > 0 {
        lemma_count_zero(s, n - 1);
    }
}

} // verus!
