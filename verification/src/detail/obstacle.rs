//! Board copper as per-layer obstacles for the router.

use vstd::prelude::*;

use crate::geom::circle::{spec_circle_clears_point, Circle};
use crate::geom::point::{Point, MAX_COORDINATE_NM};
use crate::geom::segment::{spec_clears_point, Segment};
use crate::model::board::{dim_ok, Board};
use crate::model::items::{LayerId, NetId, Pad, PadShape, Track, Via};

verus! {

/// Whether an obstacle may ever be considered for rip-up. `Frozen`
/// obstacles (locked items) are a distinct variant, not a flag.
#[derive(Debug, Clone, Copy, PartialEq, Eq, Structural)]
pub enum ObstacleKind {
    Movable,
    Frozen,
}

#[derive(Debug, Clone, Copy)]
pub enum ObstacleShape {
    Circle(Circle),
    /// A track segment plus its width: the swept copper, not the bare line.
    Segment(Segment, i64),
}

/// The shape's coordinates are in range and its radius or width is a
/// valid length.
pub open spec fn shape_ok(s: ObstacleShape) -> bool {
    match s {
        ObstacleShape::Circle(c) => c.center.in_range() && dim_ok(c.radius_nm as int),
        ObstacleShape::Segment(seg, w) => seg.in_range() && dim_ok(w as int),
    }
}

/// A margin the clearance and bounding-box computations accept.
pub open spec fn margin_ok(m: int) -> bool {
    0 <= m <= 3 * MAX_COORDINATE_NM
}

/// `point` is at least `min` from the shape's copper (a track's copper
/// extends half its width from the centre line).
pub open spec fn spec_shape_clears(s: ObstacleShape, point: Point, min: int) -> bool {
    match s {
        ObstacleShape::Circle(c) => spec_circle_clears_point(c, point, min),
        ObstacleShape::Segment(seg, w) => spec_clears_point(seg, point, min + w / 2),
    }
}

/// A shape's clearance is its circle's clearance, or its centre line's
/// clearance widened by half the track width, for every margin.
pub proof fn lemma_shape_clears_by_kind(c: Circle, seg: Segment, w: i64, point: Point, min: int)
    ensures
        spec_shape_clears(ObstacleShape::Circle(c), point, min) == spec_circle_clears_point(c, point, min),
        spec_shape_clears(ObstacleShape::Segment(seg, w), point, min) == spec_clears_point(seg, point, min + w / 2),
{
}

pub open spec fn min_i(a: int, b: int) -> int {
    if a <= b {
        a
    } else {
        b
    }
}

pub open spec fn max_i(a: int, b: int) -> int {
    if a >= b {
        a
    } else {
        b
    }
}

/// The shape's axis-aligned bounding box expanded by `m`, as (min, max).
pub open spec fn spec_bbox(s: ObstacleShape, m: int) -> (Point, Point) {
    match s {
        ObstacleShape::Circle(c) => (
            Point { x: (c.center.x - c.radius_nm - m) as i64, y: (c.center.y - c.radius_nm - m) as i64 },
            Point { x: (c.center.x + c.radius_nm + m) as i64, y: (c.center.y + c.radius_nm + m) as i64 },
        ),
        ObstacleShape::Segment(seg, w) => {
            let half = w / 2 + m;
            (
                Point {
                    x: (min_i(seg.a.x as int, seg.b.x as int) - half) as i64,
                    y: (min_i(seg.a.y as int, seg.b.y as int) - half) as i64,
                },
                Point {
                    x: (max_i(seg.a.x as int, seg.b.x as int) + half) as i64,
                    y: (max_i(seg.a.y as int, seg.b.y as int) + half) as i64,
                },
            )
        },
    }
}

impl ObstacleShape {
    /// True iff `point` is at least `min_nm` from this shape's copper.
    pub fn clears_point(self, point: Point, min_nm: i64) -> (r: bool)
        requires
            shape_ok(self),
            point.in_range(),
            0 <= min_nm <= i64::MAX - 500_000_000,
        ensures
            r == spec_shape_clears(self, point, min_nm as int),
    {
        match self {
            ObstacleShape::Circle(c) => c.clears_point(point, min_nm),
            ObstacleShape::Segment(s, width_nm) => s.clears_point(point, min_nm + width_nm / 2),
        }
    }

    /// The axis-aligned bounding box expanded by `margin_nm`, as
    /// `(min, max)` corners.
    pub fn bounding_box(self, margin_nm: i64) -> (r: (Point, Point))
        requires
            shape_ok(self),
            margin_ok(margin_nm as int),
        ensures
            r == spec_bbox(self, margin_nm as int),
    {
        match self {
            ObstacleShape::Circle(c) => (
                Point {
                    x: c.center.x - c.radius_nm - margin_nm,
                    y: c.center.y - c.radius_nm - margin_nm,
                },
                Point {
                    x: c.center.x + c.radius_nm + margin_nm,
                    y: c.center.y + c.radius_nm + margin_nm,
                },
            ),
            ObstacleShape::Segment(s, width_nm) => {
                let half = width_nm / 2 + margin_nm;
                let min_x = if s.a.x <= s.b.x { s.a.x } else { s.b.x };
                let max_x = if s.a.x >= s.b.x { s.a.x } else { s.b.x };
                let min_y = if s.a.y <= s.b.y { s.a.y } else { s.b.y };
                let max_y = if s.a.y >= s.b.y { s.a.y } else { s.b.y };
                (Point { x: min_x - half, y: min_y - half }, Point { x: max_x + half, y: max_y + half })
            },
        }
    }
}

#[derive(Debug, Clone, Copy)]
pub struct Obstacle {
    pub shape: ObstacleShape,
    pub layer: LayerId,
    pub net: NetId,
    pub kind: ObstacleKind,
}

pub open spec fn kind_for(locked: bool) -> ObstacleKind {
    if locked {
        ObstacleKind::Frozen
    } else {
        ObstacleKind::Movable
    }
}

fn kind_of(locked: bool) -> (k: ObstacleKind)
    ensures
        k == kind_for(locked),
{
    if locked {
        ObstacleKind::Frozen
    } else {
        ObstacleKind::Movable
    }
}

pub open spec fn track_obstacle(t: Track) -> Obstacle {
    Obstacle {
        shape: ObstacleShape::Segment(t.segment, t.width_nm),
        layer: t.layer,
        net: t.net,
        kind: kind_for(t.locked),
    }
}

/// One obstacle per layer from `from_layer` to `to_layer` inclusive.
pub open spec fn via_obstacles(v: Via) -> Seq<Obstacle> {
    let lo = min_i(v.from_layer.0 as int, v.to_layer.0 as int);
    let hi = max_i(v.from_layer.0 as int, v.to_layer.0 as int);
    Seq::new(
        (hi - lo + 1) as nat,
        |i: int|
            Obstacle {
                shape: ObstacleShape::Circle(Circle { center: v.position, radius_nm: (v.diameter_nm / 2) as i64 }),
                layer: LayerId((lo + i) as u32),
                net: v.net,
                kind: kind_for(v.locked),
            },
    )
}

/// One obstacle per layer the pad is on, in the pad's layer order.
pub open spec fn pad_obstacles(p: Pad) -> Seq<Obstacle> {
    p.layers@.map_values(
        |l: LayerId| Obstacle { shape: ObstacleShape::Circle(p.circle()), layer: l, net: p.net, kind: kind_for(p.locked) },
    )
}

pub open spec fn via_obstacles_upto(vs: Seq<Via>, n: int) -> Seq<Obstacle>
    decreases n,
{
    if n <= 0 {
        Seq::empty()
    } else {
        via_obstacles_upto(vs, n - 1) + via_obstacles(vs[n - 1])
    }
}

pub open spec fn pad_obstacles_upto(ps: Seq<Pad>, n: int) -> Seq<Obstacle>
    decreases n,
{
    if n <= 0 {
        Seq::empty()
    } else {
        pad_obstacles_upto(ps, n - 1) + pad_obstacles(ps[n - 1])
    }
}

/// Every track, then one entry per layer of every via, then one entry per
/// layer of every pad, in board order.
pub open spec fn spec_obstacles(b: &Board) -> Seq<Obstacle> {
    b.tracks@.map_values(|t: Track| track_obstacle(t)) + via_obstacles_upto(
        b.vias@,
        b.vias@.len() as int,
    ) + pad_obstacles_upto(b.pads@, b.pads@.len() as int)
}

/// Builds one obstacle per copper layer each board item occupies: a
/// through via spanning two layers becomes two entries, so every
/// per-layer collision check stays uniform.
pub fn obstacles_from_board(board: &Board) -> (r: Vec<Obstacle>)
    requires
        board.geometry_valid(),
    ensures
        r@ == spec_obstacles(board),
{
    let mut obstacles: Vec<Obstacle> = Vec::new();
    let mut i: usize = 0;
    while i < board.tracks.len()
        invariant
            i <= board.tracks@.len(),
            obstacles@ == board.tracks@.subrange(0, i as int).map_values(|t: Track| track_obstacle(t)),
        decreases board.tracks@.len() - i,
    {
        let track = &board.tracks[i];
        obstacles.push(
            Obstacle {
                shape: ObstacleShape::Segment(track.segment, track.width_nm),
                layer: track.layer,
                net: track.net,
                kind: kind_of(track.locked),
            },
        );
        i += 1;
        proof {
            assert(obstacles@ =~= board.tracks@.subrange(0, i as int).map_values(|t: Track| track_obstacle(t)));
        }
    }
    proof {
        assert(board.tracks@.subrange(0, board.tracks@.len() as int) =~= board.tracks@);
    }
    let ghost after_tracks = obstacles@;
    let mut i: usize = 0;
    while i < board.vias.len()
        invariant
            i <= board.vias@.len(),
            board.geometry_valid(),
            obstacles@ == after_tracks + via_obstacles_upto(board.vias@, i as int),
        decreases board.vias@.len() - i,
    {
        let via = &board.vias[i];
        let circle = Circle { center: via.position, radius_nm: via.diameter_nm / 2 };
        let lo: u64 = if via.from_layer.0 <= via.to_layer.0 { via.from_layer.0 as u64 } else { via.to_layer.0 as u64 };
        let hi: u64 = if via.from_layer.0 >= via.to_layer.0 { via.from_layer.0 as u64 } else { via.to_layer.0 as u64 };
        let ghost before = obstacles@;
        let ghost vo = via_obstacles(board.vias@[i as int]);
        assert(dim_ok(board.vias@[i as int].diameter_nm as int));
        let mut l: u64 = lo;
        while l <= hi
            invariant
                i < board.vias@.len(),
                *via == board.vias@[i as int],
                lo <= l <= hi + 1,
                hi <= u32::MAX,
                vo.len() == hi - lo + 1,
                vo == via_obstacles(board.vias@[i as int]),
                circle == (Circle { center: board.vias@[i as int].position, radius_nm: (board.vias@[i as int].diameter_nm / 2) as i64 }),
                lo == min_i(board.vias@[i as int].from_layer.0 as int, board.vias@[i as int].to_layer.0 as int),
                obstacles@ == before + vo.subrange(0, (l - lo) as int),
            decreases hi + 1 - l,
        {
            obstacles.push(
                Obstacle {
                    shape: ObstacleShape::Circle(circle),
                    layer: LayerId(l as u32),
                    net: via.net,
                    kind: kind_of(via.locked),
                },
            );
            l += 1;
            proof {
                assert(obstacles@ =~= before + vo.subrange(0, (l - lo) as int));
            }
        }
        proof {
            assert(vo.subrange(0, vo.len() as int) =~= vo);
            assert(obstacles@ =~= after_tracks + via_obstacles_upto(board.vias@, i + 1));
        }
        i += 1;
    }
    let ghost after_vias = obstacles@;
    let mut i: usize = 0;
    while i < board.pads.len()
        invariant
            i <= board.pads@.len(),
            obstacles@ == after_vias + pad_obstacles_upto(board.pads@, i as int),
        decreases board.pads@.len() - i,
    {
        let pad = &board.pads[i];
        let circle = match pad.shape {
            PadShape::Circle(c) => c,
        };
        let ghost before = obstacles@;
        let ghost po = pad_obstacles(board.pads@[i as int]);
        let mut k: usize = 0;
        while k < pad.layers.len()
            invariant
                i < board.pads@.len(),
                k <= pad.layers@.len(),
                po == pad_obstacles(board.pads@[i as int]),
                *pad == board.pads@[i as int],
                circle == pad.circle(),
                obstacles@ == before + po.subrange(0, k as int),
            decreases pad.layers@.len() - k,
        {
            obstacles.push(
                Obstacle {
                    shape: ObstacleShape::Circle(circle),
                    layer: pad.layers[k],
                    net: pad.net,
                    kind: kind_of(pad.locked),
                },
            );
            k += 1;
            proof {
                assert(obstacles@ =~= before + po.subrange(0, k as int));
            }
        }
        proof {
            assert(po.subrange(0, po.len() as int) =~= po);
            assert(obstacles@ =~= after_vias + pad_obstacles_upto(board.pads@, i + 1));
        }
        i += 1;
    }
    proof {
        assert(obstacles@ =~= spec_obstacles(board));
    }
    obstacles
}

/// Every obstacle of a valid board has an in-range shape.
pub proof fn lemma_obstacles_ok(b: &Board)
    requires
        b.geometry_valid(),
    ensures
        forall|k: int| 0 <= k < spec_obstacles(b).len() ==> shape_ok(#[trigger] spec_obstacles(b)[k].shape),
{
    let ts = b.tracks@.map_values(|t: Track| track_obstacle(t));
    assert forall|k: int| 0 <= k < ts.len() implies shape_ok(#[trigger] ts[k].shape) by {
        assert(b.tracks@[k].segment.in_range());
    }
    lemma_via_obstacles_ok(b, b.vias@.len() as int);
    lemma_pad_obstacles_ok(b, b.pads@.len() as int);
    let vs = via_obstacles_upto(b.vias@, b.vias@.len() as int);
    let ps = pad_obstacles_upto(b.pads@, b.pads@.len() as int);
    assert forall|k: int| 0 <= k < spec_obstacles(b).len() implies shape_ok(#[trigger] spec_obstacles(b)[k].shape) by {
        if k < ts.len() {
            assert(spec_obstacles(b)[k] == ts[k]);
        } else if k < ts.len() + vs.len() {
            assert(spec_obstacles(b)[k] == vs[k - ts.len()]);
        } else {
            assert(spec_obstacles(b)[k] == ps[k - ts.len() - vs.len()]);
        }
    }
}

proof fn lemma_via_obstacles_ok(b: &Board, n: int)
    requires
        b.geometry_valid(),
        n <= b.vias@.len(),
    ensures
        forall|k: int|
            0 <= k < via_obstacles_upto(b.vias@, n).len() ==> shape_ok(
                #[trigger] via_obstacles_upto(b.vias@, n)[k].shape,
            ),
    decreases n,
{
    if n > 0 {
        lemma_via_obstacles_ok(b, n - 1);
        let prev = via_obstacles_upto(b.vias@, n - 1);
        let vo = via_obstacles(b.vias@[n - 1]);
        assert(b.vias@[n - 1].position.in_range());
        assert forall|k: int| 0 <= k < via_obstacles_upto(b.vias@, n).len() implies shape_ok(
            #[trigger] via_obstacles_upto(b.vias@, n)[k].shape,
        ) by {
            if k >= prev.len() {
                assert(via_obstacles_upto(b.vias@, n)[k] == vo[k - prev.len()]);
            } else {
                assert(via_obstacles_upto(b.vias@, n)[k] == prev[k]);
            }
        }
    }
}

proof fn lemma_pad_obstacles_ok(b: &Board, n: int)
    requires
        b.geometry_valid(),
        n <= b.pads@.len(),
    ensures
        forall|k: int|
            0 <= k < pad_obstacles_upto(b.pads@, n).len() ==> shape_ok(
                #[trigger] pad_obstacles_upto(b.pads@, n)[k].shape,
            ),
    decreases n,
{
    if n > 0 {
        lemma_pad_obstacles_ok(b, n - 1);
        let prev = pad_obstacles_upto(b.pads@, n - 1);
        let po = pad_obstacles(b.pads@[n - 1]);
        assert(b.pads@[n - 1].circle().center.in_range());
        assert forall|k: int| 0 <= k < pad_obstacles_upto(b.pads@, n).len() implies shape_ok(
            #[trigger] pad_obstacles_upto(b.pads@, n)[k].shape,
        ) by {
            if k >= prev.len() {
                assert(pad_obstacles_upto(b.pads@, n)[k] == po[k - prev.len()]);
            } else {
                assert(pad_obstacles_upto(b.pads@, n)[k] == prev[k]);
            }
        }
    }
}

} // verus!
