use vstd::prelude::*;
use std::cmp::Ordering;

use crate::geom::point::{cross, lemma_diff_bounds, lemma_small_product, Point};

verus! {

/// The three possible orderings of three points, by the sign of the exact
/// cross product `(b - a) x (c - a)`.
#[derive(Debug, Clone, Copy, PartialEq, Eq, Structural)]
pub enum Orientation {
    CounterClockwise,
    Clockwise,
    Collinear,
}

/// The exact cross product `(b - a) x (c - a)`.
pub open spec fn orient_value(a: Point, b: Point, c: Point) -> int {
    cross(b.x - a.x, b.y - a.y, c.x - a.x, c.y - a.y)
}

/// The orientation named by the sign of `orient_value`.
pub open spec fn spec_orient(a: Point, b: Point, c: Point) -> Orientation {
    let v = orient_value(a, b, c);
    if v > 0 {
        Orientation::CounterClockwise
    } else if v < 0 {
        Orientation::Clockwise
    } else {
        Orientation::Collinear
    }
}

/// Exact orientation of `c` relative to the directed line `a -> b`; no
/// epsilon anywhere, so "collinear" is a fact, not a judgment call.
pub fn orient(a: Point, b: Point, c: Point) -> (o: Orientation)
    requires
        a.in_range(),
        b.in_range(),
        c.in_range(),
    ensures
        o == spec_orient(a, b, c),
{
    proof {
        lemma_diff_bounds(b, a);
        lemma_diff_bounds(c, a);
        lemma_small_product(b.x - a.x, c.y - a.y);
        lemma_small_product(b.y - a.y, c.x - a.x);
    }
    let cross = b.sub(a).cross(c.sub(a));
    match cross.cmp(&0) {
        Ordering::Greater => Orientation::CounterClockwise,
        Ordering::Less => Orientation::Clockwise,
        Ordering::Equal => Orientation::Collinear,
    }
}

/// Swapping the last two points reverses the orientation.
pub proof fn lemma_orient_antisymmetric(a: Point, b: Point, c: Point)
    ensures
        spec_orient(a, c, b) == (match spec_orient(a, b, c) {
            Orientation::CounterClockwise => Orientation::Clockwise,
            Orientation::Clockwise => Orientation::CounterClockwise,
            Orientation::Collinear => Orientation::Collinear,
        }),
{
    assert(orient_value(a, c, b) == -orient_value(a, b, c)) by (nonlinear_arith);
}

/// A repeated first point is always collinear with anything.
pub proof fn lemma_orient_degenerate(a: Point, b: Point)
    ensures
        spec_orient(a, a, b) == Orientation::Collinear,
{
    assert(orient_value(a, a, b) == 0) by (nonlinear_arith);
}

} // verus!
