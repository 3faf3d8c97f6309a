use vstd::prelude::*;

use crate::geom::circle::{
    sat_add, spec_circle_clears_segment, spec_clears_circle, Circle,
};
use crate::geom::segment::spec_clears_segment;
use crate::model::board::{dim_ok, lemma_resolved_clearance_ok, spec_resolved_clearance, Board};
use crate::model::items::{NetId, Pad, PadShape, Track, Via};
use crate::drc::violation::{ClearanceViolation, ItemRef};

verus! {

/// The clearance required between two items on `net_a` and `net_b`
/// (see `Board::resolved_clearance_nm`).
pub fn resolved_clearance_nm(board: &Board, net_a: NetId, net_b: NetId) -> (r: Option<i64>)
    ensures
        match r {
            Some(v) => spec_resolved_clearance(board, net_a, net_b) == Some(v as int),
            None => spec_resolved_clearance(board, net_a, net_b).is_none(),
        },
{
    board.resolved_clearance_nm(net_a, net_b)
}

/// The hits of `f` on row `i`, columns `lo .. j`, in column order.
pub open spec fn row_hits(
    f: spec_fn(int, int) -> Option<ClearanceViolation>,
    i: int,
    lo: int,
    j: int,
) -> Seq<ClearanceViolation>
    decreases j - lo,
{
    if j <= lo {
        Seq::empty()
    } else {
        let prev = row_hits(f, i, lo, j - 1);
        match f(i, j - 1) {
            Some(v) => prev.push(v),
            None => prev,
        }
    }
}

/// The hits of `f` on rows `0 .. i` in row-major order; each row covers
/// columns `i + 1 .. cols` when `triangle` (each unordered pair once), or
/// `0 .. cols` otherwise.
pub open spec fn grid_hits(
    f: spec_fn(int, int) -> Option<ClearanceViolation>,
    i: int,
    triangle: bool,
    cols: int,
) -> Seq<ClearanceViolation>
    decreases i,
{
    if i <= 0 {
        Seq::empty()
    } else {
        grid_hits(f, i - 1, triangle, cols) + row_hits(
            f,
            i - 1,
            if triangle {
                i
            } else {
                0
            },
            cols,
        )
    }
}

pub open spec fn pad_circle_of(p: Pad) -> Circle {
    p.circle()
}

pub open spec fn via_circle_of(v: Via) -> Circle {
    Circle { center: v.position, radius_nm: (v.diameter_nm / 2) as i64 }
}

pub open spec fn via_lo(v: Via) -> int {
    if v.from_layer.0 <= v.to_layer.0 {
        v.from_layer.0 as int
    } else {
        v.to_layer.0 as int
    }
}

pub open spec fn via_hi(v: Via) -> int {
    if v.from_layer.0 <= v.to_layer.0 {
        v.to_layer.0 as int
    } else {
        v.from_layer.0 as int
    }
}

pub open spec fn spec_track_via_share(t: Track, v: Via) -> bool {
    via_lo(v) <= t.layer.0 <= via_hi(v)
}

pub open spec fn spec_via_via_share(a: Via, b: Via) -> bool {
    via_lo(a) <= via_hi(b) && via_lo(b) <= via_hi(a)
}

pub open spec fn spec_track_pad_share(t: Track, p: Pad) -> bool {
    p.layers@.contains(t.layer)
}

pub open spec fn spec_via_pad_share(v: Via, p: Pad) -> bool {
    exists|k: int| 0 <= k < p.layers@.len() && via_lo(v) <= (#[trigger] p.layers@[k]).0 <= via_hi(v)
}

pub open spec fn spec_pad_pad_share(a: Pad, b: Pad) -> bool {
    exists|k: int| 0 <= k < a.layers@.len() && b.layers@.contains(#[trigger] a.layers@[k])
}

/// Track `i` against track `j`: same layer, a resolved clearance, and the
/// two centre lines closer than clearance plus both half-widths.
pub open spec fn track_track_hit(b: &Board, i: int, j: int) -> Option<ClearanceViolation> {
    let x = b.tracks@[i];
    let y = b.tracks@[j];
    if x.layer != y.layer {
        None
    } else {
        match spec_resolved_clearance(b, x.net, y.net) {
            None => None,
            Some(min) => if !spec_clears_segment(
                x.segment,
                y.segment,
                min + x.width_nm / 2 + y.width_nm / 2,
            ) {
                Some(
                    ClearanceViolation {
                        a: ItemRef::Track(x.id),
                        b: ItemRef::Track(y.id),
                        required_nm: min as i64,
                    },
                )
            } else {
                None
            },
        }
    }
}

/// Track `i` against via `j`.
pub open spec fn track_via_hit(b: &Board, i: int, j: int) -> Option<ClearanceViolation> {
    let t = b.tracks@[i];
    let v = b.vias@[j];
    if !spec_track_via_share(t, v) {
        None
    } else {
        match spec_resolved_clearance(b, t.net, v.net) {
            None => None,
            Some(min) => if !spec_circle_clears_segment(
                via_circle_of(v),
                t.segment,
                min + t.width_nm / 2,
            ) {
                Some(
                    ClearanceViolation {
                        a: ItemRef::Track(t.id),
                        b: ItemRef::Via(v.id),
                        required_nm: min as i64,
                    },
                )
            } else {
                None
            },
        }
    }
}

/// Track `i` against pad `j`.
pub open spec fn track_pad_hit(b: &Board, i: int, j: int) -> Option<ClearanceViolation> {
    let t = b.tracks@[i];
    let p = b.pads@[j];
    if !spec_track_pad_share(t, p) {
        None
    } else {
        match spec_resolved_clearance(b, t.net, p.net) {
            None => None,
            Some(min) => if !spec_circle_clears_segment(
                pad_circle_of(p),
                t.segment,
                min + t.width_nm / 2,
            ) {
                Some(
                    ClearanceViolation {
                        a: ItemRef::Track(t.id),
                        b: ItemRef::Pad(p.id),
                        required_nm: min as i64,
                    },
                )
            } else {
                None
            },
        }
    }
}

/// Via `i` against via `j`.
pub open spec fn via_via_hit(b: &Board, i: int, j: int) -> Option<ClearanceViolation> {
    let x = b.vias@[i];
    let y = b.vias@[j];
    if !spec_via_via_share(x, y) {
        None
    } else {
        match spec_resolved_clearance(b, x.net, y.net) {
            None => None,
            Some(min) => if !spec_clears_circle(via_circle_of(x), via_circle_of(y), min) {
                Some(
                    ClearanceViolation {
                        a: ItemRef::Via(x.id),
                        b: ItemRef::Via(y.id),
                        required_nm: min as i64,
                    },
                )
            } else {
                None
            },
        }
    }
}

/// Via `i` against pad `j`.
pub open spec fn via_pad_hit(b: &Board, i: int, j: int) -> Option<ClearanceViolation> {
    let v = b.vias@[i];
    let p = b.pads@[j];
    if !spec_via_pad_share(v, p) {
        None
    } else {
        match spec_resolved_clearance(b, v.net, p.net) {
            None => None,
            Some(min) => if !spec_clears_circle(via_circle_of(v), pad_circle_of(p), min) {
                Some(
                    ClearanceViolation {
                        a: ItemRef::Via(v.id),
                        b: ItemRef::Pad(p.id),
                        required_nm: min as i64,
                    },
                )
            } else {
                None
            },
        }
    }
}

/// Pad `i` against pad `j`.
pub open spec fn pad_pad_hit(b: &Board, i: int, j: int) -> Option<ClearanceViolation> {
    let x = b.pads@[i];
    let y = b.pads@[j];
    if !spec_pad_pad_share(x, y) {
        None
    } else {
        match spec_resolved_clearance(b, x.net, y.net) {
            None => None,
            Some(min) => if !spec_clears_circle(pad_circle_of(x), pad_circle_of(y), min) {
                Some(
                    ClearanceViolation {
                        a: ItemRef::Pad(x.id),
                        b: ItemRef::Pad(y.id),
                        required_nm: min as i64,
                    },
                )
            } else {
                None
            },
        }
    }
}

/// Every clearance violation on the board, in the order the checks run:
/// track-track, track-via, track-pad, via-via, via-pad, pad-pad, each in
/// row-major pair order (unordered pairs of one kind once each).
pub open spec fn spec_check_clearance(b: &Board) -> Seq<ClearanceViolation> {
    let nt = b.tracks@.len() as int;
    let nv = b.vias@.len() as int;
    let np = b.pads@.len() as int;
    grid_hits(|i: int, j: int| track_track_hit(b, i, j), nt, true, nt)
        + grid_hits(|i: int, j: int| track_via_hit(b, i, j), nt, false, nv)
        + grid_hits(|i: int, j: int| track_pad_hit(b, i, j), nt, false, np)
        + grid_hits(|i: int, j: int| via_via_hit(b, i, j), nv, true, nv)
        + grid_hits(|i: int, j: int| via_pad_hit(b, i, j), nv, false, np)
        + grid_hits(|i: int, j: int| pad_pad_hit(b, i, j), np, true, np)
}

proof fn lemma_row_hits_contains(f: spec_fn(int, int) -> Option<ClearanceViolation>, i: int, lo: int, j: int, c: int)
    requires
        lo <= c < j,
        f(i, c) is Some,
    ensures
        row_hits(f, i, lo, j).contains(f(i, c)->0),
    decreases j - lo,
{
    if c < j - 1 {
        lemma_row_hits_contains(f, i, lo, j - 1, c);
        let prev = row_hits(f, i, lo, j - 1);
        let k = choose|k: int| 0 <= k < prev.len() && prev[k] == f(i, c)->0;
        match f(i, j - 1) {
            Some(v) => {
                assert(row_hits(f, i, lo, j)[k] == prev.push(v)[k]);
            },
            None => {},
        }
    } else {
        let prev = row_hits(f, i, lo, j - 1);
        assert(row_hits(f, i, lo, j)[prev.len() as int] == f(i, c)->0);
    }
}

proof fn lemma_grid_hits_contains(f: spec_fn(int, int) -> Option<ClearanceViolation>, i: int, triangle: bool, cols: int, r: int, c: int)
    requires
        0 <= r < i,
        (if triangle { r + 1 } else { 0 }) <= c < cols,
        f(r, c) is Some,
    ensures
        grid_hits(f, i, triangle, cols).contains(f(r, c)->0),
    decreases i,
{
    let prev = grid_hits(f, i - 1, triangle, cols);
    let row = row_hits(f, i - 1, if triangle { i } else { 0 }, cols);
    if r < i - 1 {
        lemma_grid_hits_contains(f, i - 1, triangle, cols, r, c);
        let k = choose|k: int| 0 <= k < prev.len() && prev[k] == f(r, c)->0;
        assert((prev + row)[k] == prev[k]);
    } else {
        lemma_row_hits_contains(f, i - 1, if triangle { i } else { 0 }, cols, c);
        let k = choose|k: int| 0 <= k < row.len() && row[k] == f(r, c)->0;
        assert((prev + row)[prev.len() + k] == row[k]);
    }
}

/// A via and a pad share copper on every pad layer from the via's first
/// layer to its last, both ends included: where one such pad layer exists
/// and their nets' clearance is not met, the clearance check reports the
/// pair with that clearance.
pub proof fn lemma_via_pad_reported(b: &Board, i: int, j: int, k: int, min: int)
    requires
        0 <= i < b.vias@.len(),
        0 <= j < b.pads@.len(),
        0 <= k < b.pads@[j].layers@.len(),
        ({
            let v = b.vias@[i];
            let l = b.pads@[j].layers@[k].0;
            (v.from_layer.0 <= l <= v.to_layer.0) || (v.to_layer.0 <= l <= v.from_layer.0)
        }),
        spec_resolved_clearance(b, b.vias@[i].net, b.pads@[j].net) == Some(min),
        !spec_clears_circle(via_circle_of(b.vias@[i]), pad_circle_of(b.pads@[j]), min),
    ensures
        spec_check_clearance(b).contains(
            ClearanceViolation { a: ItemRef::Via(b.vias@[i].id), b: ItemRef::Pad(b.pads@[j].id), required_nm: min as i64 },
        ),
{
    let v = b.vias@[i];
    let p = b.pads@[j];
    assert(via_lo(v) <= p.layers@[k].0 <= via_hi(v));
    assert(spec_via_pad_share(v, p));
    let f = |i: int, j: int| via_pad_hit(b, i, j);
    let nt = b.tracks@.len() as int;
    let nv = b.vias@.len() as int;
    let np = b.pads@.len() as int;
    lemma_grid_hits_contains(f, nv, false, np, i, j);
    let x = ClearanceViolation { a: ItemRef::Via(v.id), b: ItemRef::Pad(p.id), required_nm: min as i64 };
    assert(f(i, j) == Some(x));
    let a = grid_hits(|i: int, j: int| track_track_hit(b, i, j), nt, true, nt)
        + grid_hits(|i: int, j: int| track_via_hit(b, i, j), nt, false, nv)
        + grid_hits(|i: int, j: int| track_pad_hit(b, i, j), nt, false, np)
        + grid_hits(|i: int, j: int| via_via_hit(b, i, j), nv, true, nv);
    let m = grid_hits(f, nv, false, np);
    let z = grid_hits(|i: int, j: int| pad_pad_hit(b, i, j), np, true, np);
    assert(spec_check_clearance(b) == a + m + z);
    let q = choose|q: int| 0 <= q < m.len() && m[q] == x;
    assert((a + m + z)[a.len() + q] == x);
}

/// Layer `l` lies within the via's span, taken either way round, both ends
/// included.
pub open spec fn via_spans(v: Via, l: int) -> bool {
    (v.from_layer.0 <= l <= v.to_layer.0) || (v.to_layer.0 <= l <= v.from_layer.0)
}

/// A track on any layer of a via's span, ends included, shares copper
/// with it: where their nets' clearance is not met, the clearance check
/// reports the pair.
pub proof fn lemma_track_via_reported(b: &Board, i: int, j: int, min: int)
    requires
        0 <= i < b.tracks@.len(),
        0 <= j < b.vias@.len(),
        via_spans(b.vias@[j], b.tracks@[i].layer.0 as int),
        spec_resolved_clearance(b, b.tracks@[i].net, b.vias@[j].net) == Some(min),
        !spec_circle_clears_segment(via_circle_of(b.vias@[j]), b.tracks@[i].segment, min + b.tracks@[i].width_nm / 2),
    ensures
        spec_check_clearance(b).contains(
            ClearanceViolation { a: ItemRef::Track(b.tracks@[i].id), b: ItemRef::Via(b.vias@[j].id), required_nm: min as i64 },
        ),
{
    let f = |i: int, j: int| track_via_hit(b, i, j);
    let nt = b.tracks@.len() as int;
    let nv = b.vias@.len() as int;
    let np = b.pads@.len() as int;
    lemma_grid_hits_contains(f, nt, false, nv, i, j);
    let x = ClearanceViolation { a: ItemRef::Track(b.tracks@[i].id), b: ItemRef::Via(b.vias@[j].id), required_nm: min as i64 };
    assert(f(i, j) == Some(x));
    let a = grid_hits(|i: int, j: int| track_track_hit(b, i, j), nt, true, nt);
    let m = grid_hits(f, nt, false, nv);
    let z = grid_hits(|i: int, j: int| track_pad_hit(b, i, j), nt, false, np)
        + grid_hits(|i: int, j: int| via_via_hit(b, i, j), nv, true, nv)
        + grid_hits(|i: int, j: int| via_pad_hit(b, i, j), nv, false, np)
        + grid_hits(|i: int, j: int| pad_pad_hit(b, i, j), np, true, np);
    assert(spec_check_clearance(b) =~= a + m + z);
    let q = choose|q: int| 0 <= q < m.len() && m[q] == x;
    assert((a + m + z)[a.len() + q] == x);
}

/// Two vias whose spans share a layer (ends included) share copper: where
/// their nets' clearance is not met, the clearance check reports the
/// pair (each pair once, earlier via first).
pub proof fn lemma_via_via_reported(b: &Board, i: int, j: int, l: int, min: int)
    requires
        0 <= i < j < b.vias@.len(),
        via_spans(b.vias@[i], l),
        via_spans(b.vias@[j], l),
        spec_resolved_clearance(b, b.vias@[i].net, b.vias@[j].net) == Some(min),
        !spec_clears_circle(via_circle_of(b.vias@[i]), via_circle_of(b.vias@[j]), min),
    ensures
        spec_check_clearance(b).contains(
            ClearanceViolation { a: ItemRef::Via(b.vias@[i].id), b: ItemRef::Via(b.vias@[j].id), required_nm: min as i64 },
        ),
{
    let f = |i: int, j: int| via_via_hit(b, i, j);
    let nt = b.tracks@.len() as int;
    let nv = b.vias@.len() as int;
    let np = b.pads@.len() as int;
    lemma_grid_hits_contains(f, nv, true, nv, i, j);
    let x = ClearanceViolation { a: ItemRef::Via(b.vias@[i].id), b: ItemRef::Via(b.vias@[j].id), required_nm: min as i64 };
    assert(f(i, j) == Some(x));
    let a = grid_hits(|i: int, j: int| track_track_hit(b, i, j), nt, true, nt)
        + grid_hits(|i: int, j: int| track_via_hit(b, i, j), nt, false, nv)
        + grid_hits(|i: int, j: int| track_pad_hit(b, i, j), nt, false, np);
    let m = grid_hits(f, nv, true, nv);
    let z = grid_hits(|i: int, j: int| via_pad_hit(b, i, j), nv, false, np)
        + grid_hits(|i: int, j: int| pad_pad_hit(b, i, j), np, true, np);
    assert(spec_check_clearance(b) =~= a + m + z);
    let q = choose|q: int| 0 <= q < m.len() && m[q] == x;
    assert((a + m + z)[a.len() + q] == x);
}

fn pad_circle(pad: &Pad) -> (c: Circle)
    ensures
        c == pad_circle_of(*pad),
{
    match pad.shape {
        PadShape::Circle(c) => c,
    }
}

fn via_circle(vv: &Via) -> (c: Circle)
    requires
        vv.diameter_nm >= 0,
    ensures
        c == via_circle_of(*vv),
{
    Circle::new(vv.position, vv.diameter_nm / 2)
}

fn via_layer_range(vv: &Via) -> (r: (u32, u32))
    ensures
        r.0 == via_lo(*vv),
        r.1 == via_hi(*vv),
{
    let a = vv.from_layer.0;
    let b = vv.to_layer.0;
    if a <= b {
        (a, b)
    } else {
        (b, a)
    }
}

fn track_via_share_layer(track: &Track, vv: &Via) -> (r: bool)
    ensures
        r == spec_track_via_share(*track, *vv),
{
    let (lo, hi) = via_layer_range(vv);
    lo <= track.layer.0 && track.layer.0 <= hi
}

fn via_via_share_layer(a: &Via, b: &Via) -> (r: bool)
    ensures
        r == spec_via_via_share(*a, *b),
{
    let (a_lo, a_hi) = via_layer_range(a);
    let (b_lo, b_hi) = via_layer_range(b);
    a_lo <= b_hi && b_lo <= a_hi
}

fn pad_has_layer(pad: &Pad, layer: crate::model::items::LayerId) -> (r: bool)
    ensures
        r == pad.layers@.contains(layer),
{
    let mut k: usize = 0;
    while k < pad.layers.len()
        invariant
            0 <= k <= pad.layers@.len(),
            forall|j: int| 0 <= j < k ==> pad.layers@[j] != layer,
        decreases pad.layers@.len() - k,
    {
        if pad.layers[k] == layer {
            return true;
        }
        k += 1;
    }
    false
}

fn track_pad_share_layer(track: &Track, pad: &Pad) -> (r: bool)
    ensures
        r == spec_track_pad_share(*track, *pad),
{
    pad_has_layer(pad, track.layer)
}

fn via_pad_share_layer(vv: &Via, pad: &Pad) -> (r: bool)
    ensures
        r == spec_via_pad_share(*vv, *pad),
{
    let (lo, hi) = via_layer_range(vv);
    let mut k: usize = 0;
    while k < pad.layers.len()
        invariant
            0 <= k <= pad.layers@.len(),
            lo == via_lo(*vv),
            hi == via_hi(*vv),
            forall|j: int| 0 <= j < k ==> !(lo <= (#[trigger] pad.layers@[j]).0 <= hi),
        decreases pad.layers@.len() - k,
    {
        let l = pad.layers[k].0;
        if lo <= l && l <= hi {
            return true;
        }
        k += 1;
    }
    false
}

fn pad_pad_share_layer(a: &Pad, b: &Pad) -> (r: bool)
    ensures
        r == spec_pad_pad_share(*a, *b),
{
    let mut k: usize = 0;
    while k < a.layers.len()
        invariant
            0 <= k <= a.layers@.len(),
            forall|j: int| 0 <= j < k ==> !b.layers@.contains(#[trigger] a.layers@[j]),
        decreases a.layers@.len() - k,
    {
        if pad_has_layer(b, a.layers[k]) {
            return true;
        }
        k += 1;
    }
    false
}

proof fn lemma_grid_step(
    f: spec_fn(int, int) -> Option<ClearanceViolation>,
    i: int,
    triangle: bool,
    cols: int,
)
    requires
        i >= 0,
    ensures
        grid_hits(f, i + 1, triangle, cols) == grid_hits(f, i, triangle, cols) + row_hits(
            f,
            i,
            if triangle {
                i + 1
            } else {
                0
            },
            cols,
        ),
{
}

/// All clearance violations on `board`, checked pairwise across tracks,
/// vias and pads that are on different nets, share a copper layer, and are
/// closer than their resolved net-class clearance (a track's half-width
/// added to the clearance at each track comparison). `O(n^2)` in the
/// number of items.
pub fn check_clearance(board: &Board) -> (r: Vec<ClearanceViolation>)
    requires
        board.geometry_valid(),
    ensures
        r@ == spec_check_clearance(board),
{
    let mut violations: Vec<ClearanceViolation> = Vec::new();
    check_track_track(board, &mut violations);
    check_track_via(board, &mut violations);
    check_track_pad(board, &mut violations);
    check_via_via(board, &mut violations);
    check_via_pad(board, &mut violations);
    check_pad_pad(board, &mut violations);
    proof {
        let nt = board.tracks@.len() as int;
        let nv = board.vias@.len() as int;
        let np = board.pads@.len() as int;
        assert(violations@ =~= spec_check_clearance(board));
    }
    violations
}

fn check_track_track(board: &Board, violations: &mut Vec<ClearanceViolation>)
    requires
        board.geometry_valid(),
    ensures
        final(violations)@ == old(violations)@ + grid_hits(
            |i: int, j: int| track_track_hit(board, i, j),
            board.tracks@.len() as int,
            true,
            board.tracks@.len() as int,
        ),
{
    let ghost f = |i: int, j: int| track_track_hit(board, i, j);
    let ghost start = violations@;
    let n = board.tracks.len();
    let mut i: usize = 0;
    while i < n
        invariant
            n == board.tracks@.len(),
            0 <= i <= n,
            board.geometry_valid(),
            f == (|i: int, j: int| track_track_hit(board, i, j)),
            violations@ == start + grid_hits(f, i as int, true, n as int),
        decreases n - i,
    {
        let a = &board.tracks[i];
        let ghost row_start = violations@;
        let mut j: usize = i + 1;
        while j < n
            invariant
                n == board.tracks@.len(),
                i < n,
                i + 1 <= j <= n,
                board.geometry_valid(),
                *a == board.tracks@[i as int],
                f == (|i: int, j: int| track_track_hit(board, i, j)),
                violations@ == row_start + row_hits(f, i as int, i + 1, j as int),
            decreases n - j,
        {
            let b = &board.tracks[j];
            let ghost before = violations@;
            proof {
                assert(a.segment.in_range() && dim_ok(a.width_nm as int));
                assert(board.tracks@[j as int].segment.in_range()
                    && dim_ok(board.tracks@[j as int].width_nm as int));
            }
            if a.layer == b.layer {
                let res = resolved_clearance_nm(board, a.net, b.net);
                if let Some(min_nm) = res {
                    proof {
                        lemma_resolved_clearance_ok(board, a.net, b.net);
                    }
                    let effective_min = min_nm + a.width_nm / 2 + b.width_nm / 2;
                    if !a.segment.clears_segment(b.segment, effective_min) {
                        violations.push(
                            ClearanceViolation {
                                a: ItemRef::Track(a.id),
                                b: ItemRef::Track(b.id),
                                required_nm: min_nm,
                            },
                        );
                    }
                }
            }
            proof {
                assert(violations@ =~= row_start + row_hits(f, i as int, i + 1, j + 1));
            }
            j += 1;
        }
        proof {
            lemma_grid_step(f, i as int, true, n as int);
            assert(violations@ =~= start + grid_hits(f, i + 1, true, n as int));
        }
        i += 1;
    }
}

fn check_track_via(board: &Board, violations: &mut Vec<ClearanceViolation>)
    requires
        board.geometry_valid(),
    ensures
        final(violations)@ == old(violations)@ + grid_hits(
            |i: int, j: int| track_via_hit(board, i, j),
            board.tracks@.len() as int,
            false,
            board.vias@.len() as int,
        ),
{
    let ghost f = |i: int, j: int| track_via_hit(board, i, j);
    let ghost start = violations@;
    let n = board.tracks.len();
    let m = board.vias.len();
    let mut i: usize = 0;
    while i < n
        invariant
            n == board.tracks@.len(),
            m == board.vias@.len(),
            0 <= i <= n,
            board.geometry_valid(),
            f == (|i: int, j: int| track_via_hit(board, i, j)),
            violations@ == start + grid_hits(f, i as int, false, m as int),
        decreases n - i,
    {
        let x = &board.tracks[i];
        let ghost row_start = violations@;
        let ghost lo: int = 0;
        let mut j: usize = 0;
        while j < m
            invariant
                n == board.tracks@.len(),
                m == board.vias@.len(),
                i < n,
                lo <= j <= m || (j == lo && lo >= m),
                lo == 0,
                board.geometry_valid(),
                *x == board.tracks@[i as int],
                f == (|i: int, j: int| track_via_hit(board, i, j)),
                violations@ == row_start + row_hits(f, i as int, lo, j as int),
            decreases m - j,
        {
            let y = &board.vias[j];
            proof {
                assert(board.tracks@[i as int] == *x);
                assert(board.vias@[j as int] == *y);
                assert(x.segment.in_range() && dim_ok(x.width_nm as int)); assert(y.position.in_range() && dim_ok(y.diameter_nm as int));
            }
            if track_via_share_layer(x, y) {
                let res = resolved_clearance_nm(board, x.net, y.net);
                if let Some(min_nm) = res {
                    proof {
                        lemma_resolved_clearance_ok(board, x.net, y.net);
                    }
                    let effective_min = min_nm + x.width_nm / 2;
                    if !via_circle(y).clears_segment(x.segment, effective_min) {
                        violations.push(
                            ClearanceViolation {
                                a: ItemRef::Track(x.id),
                                b: ItemRef::Via(y.id),
                                required_nm: min_nm,
                            },
                        );
                    }
                }
            }
            proof {
                assert(violations@ =~= row_start + row_hits(f, i as int, lo, j + 1));
            }
            j += 1;
        }
        proof {
            lemma_grid_step(f, i as int, false, m as int);
            assert(violations@ =~= start + grid_hits(f, i + 1, false, m as int));
        }
        i += 1;
    }
}

fn check_track_pad(board: &Board, violations: &mut Vec<ClearanceViolation>)
    requires
        board.geometry_valid(),
    ensures
        final(violations)@ == old(violations)@ + grid_hits(
            |i: int, j: int| track_pad_hit(board, i, j),
            board.tracks@.len() as int,
            false,
            board.pads@.len() as int,
        ),
{
    let ghost f = |i: int, j: int| track_pad_hit(board, i, j);
    let ghost start = violations@;
    let n = board.tracks.len();
    let m = board.pads.len();
    let mut i: usize = 0;
    while i < n
        invariant
            n == board.tracks@.len(),
            m == board.pads@.len(),
            0 <= i <= n,
            board.geometry_valid(),
            f == (|i: int, j: int| track_pad_hit(board, i, j)),
            violations@ == start + grid_hits(f, i as int, false, m as int),
        decreases n - i,
    {
        let x = &board.tracks[i];
        let ghost row_start = violations@;
        let ghost lo: int = 0;
        let mut j: usize = 0;
        while j < m
            invariant
                n == board.tracks@.len(),
                m == board.pads@.len(),
                i < n,
                lo <= j <= m || (j == lo && lo >= m),
                lo == 0,
                board.geometry_valid(),
                *x == board.tracks@[i as int],
                f == (|i: int, j: int| track_pad_hit(board, i, j)),
                violations@ == row_start + row_hits(f, i as int, lo, j as int),
            decreases m - j,
        {
            let y = &board.pads[j];
            proof {
                assert(board.tracks@[i as int] == *x);
                assert(board.pads@[j as int] == *y);
                assert(x.segment.in_range() && dim_ok(x.width_nm as int)); assert(y.circle().center.in_range() && dim_ok(y.circle().radius_nm as int));
            }
            if track_pad_share_layer(x, y) {
                let res = resolved_clearance_nm(board, x.net, y.net);
                if let Some(min_nm) = res {
                    proof {
                        lemma_resolved_clearance_ok(board, x.net, y.net);
                    }
                    let effective_min = min_nm + x.width_nm / 2;
                    if !pad_circle(y).clears_segment(x.segment, effective_min) {
                        violations.push(
                            ClearanceViolation {
                                a: ItemRef::Track(x.id),
                                b: ItemRef::Pad(y.id),
                                required_nm: min_nm,
                            },
                        );
                    }
                }
            }
            proof {
                assert(violations@ =~= row_start + row_hits(f, i as int, lo, j + 1));
            }
            j += 1;
        }
        proof {
            lemma_grid_step(f, i as int, false, m as int);
            assert(violations@ =~= start + grid_hits(f, i + 1, false, m as int));
        }
        i += 1;
    }
}

fn check_via_via(board: &Board, violations: &mut Vec<ClearanceViolation>)
    requires
        board.geometry_valid(),
    ensures
        final(violations)@ == old(violations)@ + grid_hits(
            |i: int, j: int| via_via_hit(board, i, j),
            board.vias@.len() as int,
            true,
            board.vias@.len() as int,
        ),
{
    let ghost f = |i: int, j: int| via_via_hit(board, i, j);
    let ghost start = violations@;
    let n = board.vias.len();
    let m = board.vias.len();
    let mut i: usize = 0;
    while i < n
        invariant
            n == board.vias@.len(),
            m == board.vias@.len(),
            0 <= i <= n,
            board.geometry_valid(),
            f == (|i: int, j: int| via_via_hit(board, i, j)),
            violations@ == start + grid_hits(f, i as int, true, m as int),
        decreases n - i,
    {
        let x = &board.vias[i];
        let ghost row_start = violations@;
        let ghost lo: int = (i + 1) as int;
        let mut j: usize = i + 1;
        while j < m
            invariant
                n == board.vias@.len(),
                m == board.vias@.len(),
                i < n,
                lo <= j <= m || (j == lo && lo >= m),
                lo == (i + 1) as int,
                board.geometry_valid(),
                *x == board.vias@[i as int],
                f == (|i: int, j: int| via_via_hit(board, i, j)),
                violations@ == row_start + row_hits(f, i as int, lo, j as int),
            decreases m - j,
        {
            let y = &board.vias[j];
            proof {
                assert(board.vias@[i as int] == *x);
                assert(board.vias@[j as int] == *y);
                assert(x.position.in_range() && dim_ok(x.diameter_nm as int)); assert(y.position.in_range() && dim_ok(y.diameter_nm as int));
            }
            if via_via_share_layer(x, y) {
                let res = resolved_clearance_nm(board, x.net, y.net);
                if let Some(min_nm) = res {
                    proof {
                        lemma_resolved_clearance_ok(board, x.net, y.net);
                    }
                    if !via_circle(x).clears_circle(via_circle(y), min_nm) {
                        violations.push(
                            ClearanceViolation {
                                a: ItemRef::Via(x.id),
                                b: ItemRef::Via(y.id),
                                required_nm: min_nm,
                            },
                        );
                    }
                }
            }
            proof {
                assert(violations@ =~= row_start + row_hits(f, i as int, lo, j + 1));
            }
            j += 1;
        }
        proof {
            lemma_grid_step(f, i as int, true, m as int);
            assert(violations@ =~= start + grid_hits(f, i + 1, true, m as int));
        }
        i += 1;
    }
}

fn check_via_pad(board: &Board, violations: &mut Vec<ClearanceViolation>)
    requires
        board.geometry_valid(),
    ensures
        final(violations)@ == old(violations)@ + grid_hits(
            |i: int, j: int| via_pad_hit(board, i, j),
            board.vias@.len() as int,
            false,
            board.pads@.len() as int,
        ),
{
    let ghost f = |i: int, j: int| via_pad_hit(board, i, j);
    let ghost start = violations@;
    let n = board.vias.len();
    let m = board.pads.len();
    let mut i: usize = 0;
    while i < n
        invariant
            n == board.vias@.len(),
            m == board.pads@.len(),
            0 <= i <= n,
            board.geometry_valid(),
            f == (|i: int, j: int| via_pad_hit(board, i, j)),
            violations@ == start + grid_hits(f, i as int, false, m as int),
        decreases n - i,
    {
        let x = &board.vias[i];
        let ghost row_start = violations@;
        let ghost lo: int = 0;
        let mut j: usize = 0;
        while j < m
            invariant
                n == board.vias@.len(),
                m == board.pads@.len(),
                i < n,
                lo <= j <= m || (j == lo && lo >= m),
                lo == 0,
                board.geometry_valid(),
                *x == board.vias@[i as int],
                f == (|i: int, j: int| via_pad_hit(board, i, j)),
                violations@ == row_start + row_hits(f, i as int, lo, j as int),
            decreases m - j,
        {
            let y = &board.pads[j];
            proof {
                assert(board.vias@[i as int] == *x);
                assert(board.pads@[j as int] == *y);
                assert(x.position.in_range() && dim_ok(x.diameter_nm as int)); assert(y.circle().center.in_range() && dim_ok(y.circle().radius_nm as int));
            }
            if via_pad_share_layer(x, y) {
                let res = resolved_clearance_nm(board, x.net, y.net);
                if let Some(min_nm) = res {
                    proof {
                        lemma_resolved_clearance_ok(board, x.net, y.net);
                    }
                    if !via_circle(x).clears_circle(pad_circle(y), min_nm) {
                        violations.push(
                            ClearanceViolation {
                                a: ItemRef::Via(x.id),
                                b: ItemRef::Pad(y.id),
                                required_nm: min_nm,
                            },
                        );
                    }
                }
            }
            proof {
                assert(violations@ =~= row_start + row_hits(f, i as int, lo, j + 1));
            }
            j += 1;
        }
        proof {
            lemma_grid_step(f, i as int, false, m as int);
            assert(violations@ =~= start + grid_hits(f, i + 1, false, m as int));
        }
        i += 1;
    }
}

fn check_pad_pad(board: &Board, violations: &mut Vec<ClearanceViolation>)
    requires
        board.geometry_valid(),
    ensures
        final(violations)@ == old(violations)@ + grid_hits(
            |i: int, j: int| pad_pad_hit(board, i, j),
            board.pads@.len() as int,
            true,
            board.pads@.len() as int,
        ),
{
    let ghost f = |i: int, j: int| pad_pad_hit(board, i, j);
    let ghost start = violations@;
    let n = board.pads.len();
    let m = board.pads.len();
    let mut i: usize = 0;
    while i < n
        invariant
            n == board.pads@.len(),
            m == board.pads@.len(),
            0 <= i <= n,
            board.geometry_valid(),
            f == (|i: int, j: int| pad_pad_hit(board, i, j)),
            violations@ == start + grid_hits(f, i as int, true, m as int),
        decreases n - i,
    {
        let x = &board.pads[i];
        let ghost row_start = violations@;
        let ghost lo: int = (i + 1) as int;
        let mut j: usize = i + 1;
        while j < m
            invariant
                n == board.pads@.len(),
                m == board.pads@.len(),
                i < n,
                lo <= j <= m || (j == lo && lo >= m),
                lo == (i + 1) as int,
                board.geometry_valid(),
                *x == board.pads@[i as int],
                f == (|i: int, j: int| pad_pad_hit(board, i, j)),
                violations@ == row_start + row_hits(f, i as int, lo, j as int),
            decreases m - j,
        {
            let y = &board.pads[j];
            proof {
                assert(board.pads@[i as int] == *x);
                assert(board.pads@[j as int] == *y);
                assert(x.circle().center.in_range() && dim_ok(x.circle().radius_nm as int)); assert(y.circle().center.in_range() && dim_ok(y.circle().radius_nm as int));
            }
            if pad_pad_share_layer(x, y) {
                let res = resolved_clearance_nm(board, x.net, y.net);
                if let Some(min_nm) = res {
                    proof {
                        lemma_resolved_clearance_ok(board, x.net, y.net);
                    }
                    if !pad_circle(x).clears_circle(pad_circle(y), min_nm) {
                        violations.push(
                            ClearanceViolation {
                                a: ItemRef::Pad(x.id),
                                b: ItemRef::Pad(y.id),
                                required_nm: min_nm,
                            },
                        );
                    }
                }
            }
            proof {
                assert(violations@ =~= row_start + row_hits(f, i as int, lo, j + 1));
            }
            j += 1;
        }
        proof {
            lemma_grid_step(f, i as int, true, m as int);
            assert(violations@ =~= start + grid_hits(f, i + 1, true, m as int));
        }
        i += 1;
    }
}

} // verus!
