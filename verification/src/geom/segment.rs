use vstd::prelude::*;

use crate::geom::point::{
    dot, fits_i128, len_sq, lemma_diff_bounds, lemma_small_product, Point, MAX_COORDINATE_NM,
};
use crate::geom::predicates::{orient, spec_orient, Orientation};

verus! {

/// A straight track segment between two endpoints, in nanometres.
#[derive(Debug, Clone, Copy, PartialEq, Eq, Structural)]
pub struct Segment {
    pub a: Point,
    pub b: Point,
}

/// An exact squared distance, kept as the fraction
/// `numerator / denominator` (the denominator is always positive for a
/// value produced by `Segment::distance_sq`), compared only by
/// cross-multiplication so nothing ever divides.
#[derive(Debug, Clone, Copy, PartialEq, Eq, Structural)]
pub struct RationalDistanceSq {
    pub numerator: i128,
    pub denominator: i128,
}

impl RationalDistanceSq {
    /// True iff this squared distance is at least `threshold_sq`.
    pub fn at_least(self, threshold_sq: i128) -> (r: bool)
        requires
            fits_i128(threshold_sq * self.denominator),
        ensures
            r == (self.numerator >= threshold_sq * self.denominator),
    {
        self.numerator >= threshold_sq * self.denominator
    }
}

/// Exact squared distance from `p` to the closest point of `seg`, as a
/// `(numerator, denominator)` pair: the classic clamped projection of `p`
/// onto the segment, with the projection parameter
/// `t = ((p - a) . (b - a)) / |b - a|^2` never divided out.
pub open spec fn spec_distance_sq(seg: Segment, p: Point) -> (int, int) {
    let abx = seg.b.x - seg.a.x;
    let aby = seg.b.y - seg.a.y;
    let apx = p.x - seg.a.x;
    let apy = p.y - seg.a.y;
    let den = len_sq(abx, aby);
    let t = dot(apx, apy, abx, aby);
    if den == 0 || t <= 0 {
        (len_sq(apx, apy), 1)
    } else if t >= den {
        (len_sq(p.x - seg.b.x, p.y - seg.b.y), 1)
    } else {
        (len_sq(apx, apy) * den - t * t, den)
    }
}

/// True iff the squared distance from `p` to `seg` is at least `min^2`.
pub open spec fn spec_clears_point(seg: Segment, p: Point, min: int) -> bool {
    spec_distance_sq(seg, p).0 >= min * min * spec_distance_sq(seg, p).1
}

/// True iff `q` lies in the axis-aligned bounding box of `p` and `r`.
pub open spec fn in_bbox(p: Point, q: Point, r: Point) -> bool {
    &&& (p.x <= q.x <= r.x || r.x <= q.x <= p.x)
    &&& (p.y <= q.y <= r.y || r.y <= q.y <= p.y)
}

/// The exact segment-intersection test: the segments properly cross, or
/// an endpoint of one lies on the other.
pub open spec fn spec_intersects(s: Segment, t: Segment) -> bool {
    let o1 = spec_orient(s.a, s.b, t.a);
    let o2 = spec_orient(s.a, s.b, t.b);
    let o3 = spec_orient(t.a, t.b, s.a);
    let o4 = spec_orient(t.a, t.b, s.b);
    ||| (o1 != o2 && o3 != o4)
    ||| (o1 == Orientation::Collinear && in_bbox(s.a, t.a, s.b))
    ||| (o2 == Orientation::Collinear && in_bbox(s.a, t.b, s.b))
    ||| (o3 == Orientation::Collinear && in_bbox(t.a, s.a, t.b))
    ||| (o4 == Orientation::Collinear && in_bbox(t.a, s.b, t.b))
}

/// True iff every point of `s` is at least `min` away from every point of
/// `t`: touching segments clear only a zero minimum; otherwise the closest
/// approach of two non-crossing segments is at one of the four endpoints.
pub open spec fn spec_clears_segment(s: Segment, t: Segment, min: int) -> bool {
    if spec_intersects(s, t) {
        min == 0
    } else {
        &&& spec_clears_point(s, t.a, min)
        &&& spec_clears_point(s, t.b, min)
        &&& spec_clears_point(t, s.a, min)
        &&& spec_clears_point(t, s.b, min)
    }
}

/// A clearance threshold the predicates accept: any non-negative `i64`.
/// (Past 4 m no two points of the coordinate range are far enough apart,
/// which the predicates answer without squaring the threshold.)
pub open spec fn threshold_ok(min: int) -> bool {
    0 <= min <= i64::MAX
}

impl Segment {
    pub open spec fn in_range(self) -> bool {
        self.a.in_range() && self.b.in_range()
    }

    pub fn new(a: Point, b: Point) -> (s: Segment)
        ensures
            s.a == a,
            s.b == b,
    {
        Segment { a, b }
    }

    /// Exact squared distance from `p` to the closest point on this
    /// segment (see `spec_distance_sq`).
    pub fn distance_sq(self, p: Point) -> (d: RationalDistanceSq)
        requires
            self.in_range(),
            p.in_range(),
        ensures
            d.numerator == spec_distance_sq(self, p).0,
            d.denominator == spec_distance_sq(self, p).1,
            d.numerator >= 0,
            d.denominator > 0,
            d.denominator <= 8_000_000_000_000_000_000,
    {
        proof {
            lemma_distance_sq_bounds(self, p);
        }
        let ab = self.b.sub(self.a);
        let ap = p.sub(self.a);
        let denominator = ab.length_sq();

        if denominator == 0 {
            return RationalDistanceSq { numerator: ap.length_sq(), denominator: 1 };
        }
        let t_num = ap.dot(ab);
        if t_num <= 0 {
            RationalDistanceSq { numerator: ap.length_sq(), denominator: 1 }
        } else if t_num >= denominator {
            RationalDistanceSq { numerator: p.sub(self.b).length_sq(), denominator: 1 }
        } else {
            let ap_sq = ap.length_sq();
            proof {
                assert(0 <= ap_sq <= 8_000_000_000_000_000_000);
                assert(0 < denominator <= 8_000_000_000_000_000_000);
                assert(ap_sq * denominator <= 64_000_000_000_000_000_000_000_000_000_000_000_000)
                    by (nonlinear_arith)
                    requires
                        0 <= ap_sq <= 8_000_000_000_000_000_000,
                        0 < denominator <= 8_000_000_000_000_000_000,
                ;
                assert(t_num * t_num <= 64_000_000_000_000_000_000_000_000_000_000_000_000)
                    by (nonlinear_arith)
                    requires
                        0 < t_num < denominator,
                        denominator <= 8_000_000_000_000_000_000,
                ;
                assert(0 <= t_num * t_num);
            }
            RationalDistanceSq { numerator: ap_sq * denominator - t_num * t_num, denominator }
        }
    }

    /// True iff every point on this segment is at least `min_nm` away from
    /// `p`.
    pub fn clears_point(self, p: Point, min_nm: i64) -> (r: bool)
        requires
            self.in_range(),
            p.in_range(),
            threshold_ok(min_nm as int),
        ensures
            r == spec_clears_point(self, p, min_nm as int),
    {
        if min_nm > 4_000_000_000 {
            proof {
                lemma_distance_sq_bounds(self, p);
                lemma_distance_sq_at_most(self, p);
                let d = spec_distance_sq(self, p);
                assert(min_nm * min_nm > 16_000_000_000_000_000_000) by (nonlinear_arith)
                    requires
                        min_nm > 4_000_000_000,
                ;
                assert((min_nm as int) * (min_nm as int) * d.1 > 8_000_000_000_000_000_000 * d.1) by (nonlinear_arith)
                    requires
                        min_nm * min_nm > 16_000_000_000_000_000_000,
                        d.1 > 0,
                ;
            }
            return false;
        }
        proof {
            crate::geom::point::lemma_i64_square_bound(min_nm);
        }
        let threshold_sq = (min_nm as i128) * (min_nm as i128);
        let d = self.distance_sq(p);
        proof {
            assert(threshold_sq * d.denominator <= 16_000_000_000_000_000_000
                * 8_000_000_000_000_000_000) by (nonlinear_arith)
                requires
                    0 <= min_nm <= 4_000_000_000,
                    threshold_sq == min_nm * min_nm,
                    0 < d.denominator <= 8_000_000_000_000_000_000,
            ;
            assert(0 <= threshold_sq * d.denominator) by (nonlinear_arith)
                requires
                    threshold_sq == min_nm * min_nm,
                    0 < d.denominator,
            ;
        }
        d.at_least(threshold_sq)
    }

    /// True iff this segment and `other` share at least one point.
    pub fn intersects(self, other: Segment) -> (r: bool)
        requires
            self.in_range(),
            other.in_range(),
        ensures
            r == spec_intersects(self, other),
    {
        let o1 = orient(self.a, self.b, other.a);
        let o2 = orient(self.a, self.b, other.b);
        let o3 = orient(other.a, other.b, self.a);
        let o4 = orient(other.a, other.b, self.b);
        if o1 != o2 && o3 != o4 {
            return true;
        }
        (o1 == Orientation::Collinear && bbox_contains(self.a, other.a, self.b))
            || (o2 == Orientation::Collinear && bbox_contains(self.a, other.b, self.b))
            || (o3 == Orientation::Collinear && bbox_contains(other.a, self.a, other.b))
            || (o4 == Orientation::Collinear && bbox_contains(other.a, self.b, other.b))
    }

    /// True iff every point of this segment is at least `min_nm` from every
    /// point of `other`.
    pub fn clears_segment(self, other: Segment, min_nm: i64) -> (r: bool)
        requires
            self.in_range(),
            other.in_range(),
            threshold_ok(min_nm as int),
        ensures
            r == spec_clears_segment(self, other, min_nm as int),
    {
        if self.intersects(other) {
            return min_nm == 0;
        }
        self.clears_point(other.a, min_nm) && self.clears_point(other.b, min_nm)
            && other.clears_point(self.a, min_nm) && other.clears_point(self.b, min_nm)
    }
}

fn bbox_contains(p: Point, q: Point, r: Point) -> (b: bool)
    ensures
        b == in_bbox(p, q, r),
{
    ((p.x <= q.x && q.x <= r.x) || (r.x <= q.x && q.x <= p.x))
        && ((p.y <= q.y && q.y <= r.y) || (r.y <= q.y && q.y <= p.y))
}

/// Lagrange's identity in the plane: `|u|^2 |v|^2 - (u.v)^2 = (u x v)^2`.
pub proof fn lemma_lagrange(ux: int, uy: int, vx: int, vy: int)
    ensures
        len_sq(ux, uy) * len_sq(vx, vy) - dot(ux, uy, vx, vy) * dot(ux, uy, vx, vy)
            == (ux * vy - uy * vx) * (ux * vy - uy * vx),
{
    let a = ux * vx;
    let b = uy * vy;
    let c = ux * vy;
    let d = uy * vx;
    assert(a * b == c * d) by (nonlinear_arith)
        requires
            a == ux * vx,
            b == uy * vy,
            c == ux * vy,
            d == uy * vx,
    ;
    let p = ux * ux;
    let q = uy * uy;
    let r = vx * vx;
    let s = vy * vy;
    assert((p + q) * (r + s) == p * r + p * s + q * r + q * s) by (nonlinear_arith);
    assert(p * r == a * a) by (nonlinear_arith)
        requires
            p == ux * ux,
            r == vx * vx,
            a == ux * vx,
    ;
    assert(p * s == c * c) by (nonlinear_arith)
        requires
            p == ux * ux,
            s == vy * vy,
            c == ux * vy,
    ;
    assert(q * r == d * d) by (nonlinear_arith)
        requires
            q == uy * uy,
            r == vx * vx,
            d == uy * vx,
    ;
    assert(q * s == b * b) by (nonlinear_arith)
        requires
            q == uy * uy,
            s == vy * vy,
            b == uy * vy,
    ;
    assert(len_sq(ux, uy) * len_sq(vx, vy) == a * a + b * b + c * c + d * d);
    assert(dot(ux, uy, vx, vy) * dot(ux, uy, vx, vy) == (a + b) * (a + b));
    assert((a + b) * (a + b) == a * a + 2 * (a * b) + b * b) by (nonlinear_arith);
    assert((c - d) * (c - d) == c * c - 2 * (c * d) + d * d) by (nonlinear_arith);
}

/// Bounds on every intermediate of `distance_sq`, and the signs of its
/// result.
pub proof fn lemma_distance_sq_bounds(seg: Segment, p: Point)
    requires
        seg.in_range(),
        p.in_range(),
    ensures
        0 <= len_sq(seg.b.x - seg.a.x, seg.b.y - seg.a.y) <= 8_000_000_000_000_000_000,
        0 <= len_sq(p.x - seg.a.x, p.y - seg.a.y) <= 8_000_000_000_000_000_000,
        0 <= len_sq(p.x - seg.b.x, p.y - seg.b.y) <= 8_000_000_000_000_000_000,
        -8_000_000_000_000_000_000 <= dot(p.x - seg.a.x, p.y - seg.a.y, seg.b.x - seg.a.x,
            seg.b.y - seg.a.y) <= 8_000_000_000_000_000_000,
        spec_distance_sq(seg, p).0 >= 0,
        0 < spec_distance_sq(seg, p).1 <= 8_000_000_000_000_000_000,
{
    lemma_diff_bounds(seg.b, seg.a);
    lemma_diff_bounds(p, seg.a);
    lemma_diff_bounds(p, seg.b);
    let abx = seg.b.x - seg.a.x;
    let aby = seg.b.y - seg.a.y;
    let apx = p.x - seg.a.x;
    let apy = p.y - seg.a.y;
    let bpx = p.x - seg.b.x;
    let bpy = p.y - seg.b.y;
    lemma_small_product(abx, abx);
    lemma_small_product(aby, aby);
    lemma_small_product(apx, apx);
    lemma_small_product(apy, apy);
    lemma_small_product(bpx, bpx);
    lemma_small_product(bpy, bpy);
    lemma_small_product(apx, abx);
    lemma_small_product(apy, aby);
    assert(abx * abx >= 0 && aby * aby >= 0 && apx * apx >= 0 && apy * apy >= 0) by (nonlinear_arith);
    assert(bpx * bpx >= 0 && bpy * bpy >= 0) by (nonlinear_arith);
    lemma_lagrange(apx, apy, abx, aby);
    let c = apx * aby - apy * abx;
    assert(c * c >= 0) by (nonlinear_arith);
}

/// No point is farther than 8e18 square nanometres from a segment within
/// the coordinate range.
proof fn lemma_distance_sq_at_most(seg: Segment, p: Point)
    requires
        seg.in_range(),
        p.in_range(),
    ensures
        spec_distance_sq(seg, p).0 <= 8_000_000_000_000_000_000 * spec_distance_sq(seg, p).1,
{
    lemma_distance_sq_bounds(seg, p);
    let abx = seg.b.x - seg.a.x;
    let aby = seg.b.y - seg.a.y;
    let apx = p.x - seg.a.x;
    let apy = p.y - seg.a.y;
    let den = len_sq(abx, aby);
    let t = dot(apx, apy, abx, aby);
    if !(den == 0 || t <= 0) && !(t >= den) {
        assert(len_sq(apx, apy) * den - t * t <= 8_000_000_000_000_000_000 * den) by (nonlinear_arith)
            requires
                0 <= len_sq(apx, apy) <= 8_000_000_000_000_000_000,
                den > 0,
        ;
    }
}

/// A segment has zero clearance from a point only as a zero minimum: the
/// squared distance is never negative, so a zero minimum always clears.
pub proof fn lemma_zero_minimum_always_clears(seg: Segment, p: Point)
    requires
        seg.in_range(),
        p.in_range(),
    ensures
        spec_clears_point(seg, p, 0),
{
    lemma_distance_sq_bounds(seg, p);
}

/// A segment always has zero distance from its own endpoints, so it clears
/// them only at a zero minimum.
pub proof fn lemma_endpoint_clearance_is_zero(seg: Segment, min: int)
    requires
        seg.in_range(),
        min >= 0,
    ensures
        spec_clears_point(seg, seg.a, min) == (min == 0),
        spec_clears_point(seg, seg.b, min) == (min == 0),
{
    lemma_distance_sq_bounds(seg, seg.a);
    lemma_distance_sq_bounds(seg, seg.b);
    let abx = seg.b.x - seg.a.x;
    let aby = seg.b.y - seg.a.y;
    assert(len_sq(0, 0) == 0);
    // At `a` the projection parameter is 0 and the distance is zero.
    assert(spec_distance_sq(seg, seg.a).0 == 0);
    // At `b`, either the segment is degenerate (b == a) or t == den.
    assert(dot(abx, aby, abx, aby) == len_sq(abx, aby));
    assert(spec_distance_sq(seg, seg.b).0 == 0);
    assert(min * min * spec_distance_sq(seg, seg.a).1 > 0 <== min > 0) by (nonlinear_arith)
        requires
            spec_distance_sq(seg, seg.a).1 > 0,
    ;
    assert(min * min * spec_distance_sq(seg, seg.b).1 > 0 <== min > 0) by (nonlinear_arith)
        requires
            spec_distance_sq(seg, seg.b).1 > 0,
    ;
}

/// Clearance is monotone: satisfying a minimum implies satisfying every
/// smaller one.
pub proof fn lemma_clears_point_monotone(seg: Segment, p: Point, min: int, smaller: int)
    requires
        seg.in_range(),
        p.in_range(),
        0 <= smaller <= min,
        spec_clears_point(seg, p, min),
    ensures
        spec_clears_point(seg, p, smaller),
{
    lemma_distance_sq_bounds(seg, p);
    let d = spec_distance_sq(seg, p);
    assert(smaller * smaller * d.1 <= min * min * d.1) by (nonlinear_arith)
        requires
            0 <= smaller <= min,
            d.1 > 0,
    ;
}

/// Segment intersection is symmetric.
pub proof fn lemma_intersects_symmetric(s: Segment, t: Segment)
    ensures
        spec_intersects(s, t) == spec_intersects(t, s),
{
}

/// Every segment intersects itself.
pub proof fn lemma_intersects_itself(s: Segment)
    ensures
        spec_intersects(s, s),
{
    crate::geom::predicates::lemma_orient_degenerate(s.a, s.b);
}

/// Segment-to-segment clearance is symmetric.
pub proof fn lemma_clears_segment_symmetric(s: Segment, t: Segment, min: int)
    ensures
        spec_clears_segment(s, t, min) == spec_clears_segment(t, s, min),
{
}

/// A segment clears itself only at a zero minimum.
pub proof fn lemma_clears_itself_only_at_zero(s: Segment, min: int)
    ensures
        spec_clears_segment(s, s, min) == (min == 0),
{
    lemma_intersects_itself(s);
}

/// Intersecting segments never clear a positive minimum.
pub proof fn lemma_intersecting_never_clear(s: Segment, t: Segment, min: int)
    requires
        spec_intersects(s, t),
        min >= 1,
    ensures
        !spec_clears_segment(s, t, min),
{
}

} // verus!
