use vstd::prelude::*;

use crate::geom::point::{len_sq, lemma_diff_bounds, lemma_small_product, Point};
use crate::geom::segment::{spec_clears_point, threshold_ok, Segment};

verus! {

/// A circular shape — a via, a round pad — centred at `center` with radius
/// `radius_nm`.
#[derive(Debug, Clone, Copy, PartialEq, Eq, Structural)]
pub struct Circle {
    pub center: Point,
    pub radius_nm: i64,
}

/// `a + b`, saturating at the bounds of `i64`.
pub open spec fn sat_add(a: int, b: int) -> int {
    if a + b > i64::MAX {
        i64::MAX as int
    } else if a + b < i64::MIN {
        i64::MIN as int
    } else {
        a + b
    }
}

/// `a + b` saturating at the bounds of `i64`.
pub fn saturating_add(a: i64, b: i64) -> (r: i64)
    ensures
        r == sat_add(a as int, b as int),
{
    match a.checked_add(b) {
        Some(s) => s,
        None => if b > 0 {
            i64::MAX
        } else {
            i64::MIN
        },
    }
}

/// The squared centre distance of two circles.
pub open spec fn centre_dist_sq(a: Point, b: Point) -> int {
    len_sq(a.x - b.x, a.y - b.y)
}

/// True iff the gap between two circles' edges is at least `min`.
pub open spec fn spec_clears_circle(c: Circle, other: Circle, min: int) -> bool {
    let t = sat_add(sat_add(min, c.radius_nm as int), other.radius_nm as int);
    centre_dist_sq(c.center, other.center) >= t * t
}

/// True iff `point` is at least `min` from the circle's edge.
pub open spec fn spec_circle_clears_point(c: Circle, point: Point, min: int) -> bool {
    let t = sat_add(min, c.radius_nm as int);
    centre_dist_sq(c.center, point) >= t * t
}

/// True iff every point of `seg` clears the circle's edge by `min`.
pub open spec fn spec_circle_clears_segment(c: Circle, seg: Segment, min: int) -> bool {
    spec_clears_point(seg, c.center, sat_add(min, c.radius_nm as int))
}

proof fn lemma_square_fits(t: i64)
    ensures
        0 <= (t as int) * (t as int) <= 0x4000_0000_0000_0000_0000_0000_0000_0000,
{
    crate::geom::point::lemma_i64_square_bound(t);
}

proof fn lemma_centre_dist_fits(a: Point, b: Point)
    requires
        a.in_range(),
        b.in_range(),
    ensures
        0 <= centre_dist_sq(a, b) <= 8_000_000_000_000_000_000,
{
    lemma_diff_bounds(a, b);
    lemma_small_product(a.x - b.x, a.x - b.x);
    lemma_small_product(a.y - b.y, a.y - b.y);
    assert((a.x - b.x) * (a.x - b.x) >= 0 && (a.y - b.y) * (a.y - b.y) >= 0) by (nonlinear_arith);
}

impl Circle {
    /// The radius must be non-negative.
    pub fn new(center: Point, radius_nm: i64) -> (c: Circle)
        requires
            radius_nm >= 0,
        ensures
            c.center == center,
            c.radius_nm == radius_nm,
    {
        Circle { center, radius_nm }
    }

    /// True iff the gap between this circle's edge and `other`'s edge is at
    /// least `min_nm` — `distance(centres) >= min_nm + r1 + r2`, compared
    /// squared so the check stays exact.
    pub fn clears_circle(self, other: Circle, min_nm: i64) -> (r: bool)
        requires
            min_nm >= 0,
            self.center.in_range(),
            other.center.in_range(),
        ensures
            r == spec_clears_circle(self, other, min_nm as int),
    {
        let threshold = saturating_add(saturating_add(min_nm, self.radius_nm), other.radius_nm);
        proof {
            lemma_square_fits(threshold);
            lemma_centre_dist_fits(self.center, other.center);
        }
        let threshold_sq = (threshold as i128) * (threshold as i128);
        let dist_sq = self.center.sub(other.center).length_sq();
        dist_sq >= threshold_sq
    }

    /// True iff every point on `segment` clears this circle's edge by at
    /// least `min_nm`.
    pub fn clears_segment(self, segment: Segment, min_nm: i64) -> (r: bool)
        requires
            min_nm >= 0,
            self.center.in_range(),
            segment.in_range(),
            threshold_ok(sat_add(min_nm as int, self.radius_nm as int)),
        ensures
            r == spec_circle_clears_segment(self, segment, min_nm as int),
    {
        let threshold = saturating_add(min_nm, self.radius_nm);
        segment.clears_point(self.center, threshold)
    }

    /// True iff `point` is at least `min_nm` from this circle's edge.
    pub fn clears_point(self, point: Point, min_nm: i64) -> (r: bool)
        requires
            min_nm >= 0,
            self.center.in_range(),
            point.in_range(),
        ensures
            r == spec_circle_clears_point(self, point, min_nm as int),
    {
        let threshold = saturating_add(min_nm, self.radius_nm);
        proof {
            lemma_square_fits(threshold);
            lemma_centre_dist_fits(self.center, point);
        }
        let threshold_sq = (threshold as i128) * (threshold as i128);
        self.center.sub(point).length_sq() >= threshold_sq
    }
}

/// Circle-to-circle clearance is symmetric (for non-negative radii and
/// minimum).
pub proof fn lemma_clears_circle_symmetric(a: Circle, b: Circle, min: int)
    requires
        a.radius_nm >= 0,
        b.radius_nm >= 0,
        min >= 0,
    ensures
        spec_clears_circle(a, b, min) == spec_clears_circle(b, a, min),
{
    assert(centre_dist_sq(a.center, b.center) == centre_dist_sq(b.center, a.center))
        by (nonlinear_arith);
}

/// A circle clears an identical copy of itself only when both the minimum
/// and the radius are zero.
pub proof fn lemma_circle_clears_itself(c: Circle, min: int)
    requires
        c.radius_nm >= 0,
        min >= 0,
    ensures
        spec_clears_circle(c, c, min) == (min == 0 && c.radius_nm == 0),
{
    let t = sat_add(sat_add(min, c.radius_nm as int), c.radius_nm as int);
    assert(centre_dist_sq(c.center, c.center) == 0);
    assert(t >= 0);
    assert(t * t > 0 <== t > 0) by (nonlinear_arith);
}

} // verus!
