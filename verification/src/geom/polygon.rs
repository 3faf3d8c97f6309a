use vstd::prelude::*;

use crate::geom::point::{lemma_diff_bounds, lemma_small_product, Point};
use crate::geom::segment::{spec_intersects, Segment};

verus! {

/// A closed polygon, vertices in order, implicitly closed (the last vertex
/// connects back to the first).
#[derive(Debug, Clone, PartialEq)]
pub struct Polygon {
    pub vertices: Vec<Point>,
}

/// The `i`-th edge of the polygon with vertices `vs`.
pub open spec fn edge(vs: Seq<Point>, i: int) -> Segment {
    Segment { a: vs[i], b: vs[(i + 1) % (vs.len() as int)] }
}

/// True iff the horizontal ray from `p` towards `+x` crosses the edge
/// `(a, b)`: the edge straddles the line `y = p.y`, and its crossing lies
/// strictly to the right of `p` (decided by exact cross-multiplication).
pub open spec fn ray_crosses(a: Point, b: Point, p: Point) -> bool {
    let dy = b.y - a.y;
    let dx = b.x - a.x;
    let lhs = (p.x - a.x) * dy;
    let rhs = dx * (p.y - a.y);
    &&& (a.y > p.y) != (b.y > p.y)
    &&& if dy > 0 {
        lhs < rhs
    } else {
        lhs > rhs
    }
}

/// Parity of the number of crossings among the first `k` edges.
pub open spec fn crossing_parity(vs: Seq<Point>, p: Point, k: int) -> bool
    decreases k,
{
    if k <= 0 {
        false
    } else {
        crossing_parity(vs, p, k - 1) != ray_crosses(edge(vs, k - 1).a, edge(vs, k - 1).b, p)
    }
}

/// The exact crossing-number test: `p` is inside iff an odd number of
/// edges cross the horizontal ray from `p`.
pub open spec fn spec_contains_point(vs: Seq<Point>, p: Point) -> bool {
    crossing_parity(vs, p, vs.len() as int)
}

/// True iff `seg` touches the polygon: an endpoint inside, or any edge
/// intersecting it.
pub open spec fn spec_intersects_segment(vs: Seq<Point>, seg: Segment) -> bool {
    ||| spec_contains_point(vs, seg.a)
    ||| spec_contains_point(vs, seg.b)
    ||| exists|i: int| 0 <= i < vs.len() && spec_intersects(#[trigger] edge(vs, i), seg)
}

impl Polygon {
    pub open spec fn in_range(&self) -> bool {
        forall|i: int| 0 <= i < self.vertices@.len() ==> (#[trigger] self.vertices@[i]).in_range()
    }

    /// A polygon needs at least three vertices.
    pub fn new(vertices: Vec<Point>) -> (p: Polygon)
        requires
            vertices@.len() >= 3,
        ensures
            p.vertices@ == vertices@,
    {
        Polygon { vertices }
    }

    /// True iff `point` is inside this polygon, by the exact crossing-number
    /// test.
    pub fn contains_point(&self, point: Point) -> (r: bool)
        requires
            self.in_range(),
            point.in_range(),
        ensures
            r == spec_contains_point(self.vertices@, point),
    {
        let mut inside = false;
        let n = self.vertices.len();
        let mut i: usize = 0;
        while i < n
            invariant
                n == self.vertices@.len(),
                0 <= i <= n,
                self.in_range(),
                point.in_range(),
                inside == crossing_parity(self.vertices@, point, i as int),
            decreases n - i,
        {
            let a = self.vertices[i];
            let b = self.vertices[(i + 1) % n];
            proof {
                assert(self.vertices@[i as int].in_range());
                assert(self.vertices@[(i as int + 1) % (n as int)].in_range());
                lemma_diff_bounds(b, a);
                lemma_diff_bounds(point, a);
                lemma_small_product(point.x - a.x, b.y - a.y);
                lemma_small_product(b.x - a.x, point.y - a.y);
            }
            if (a.y > point.y) != (b.y > point.y) {
                let dy = (b.y - a.y) as i128;
                let dx = (b.x - a.x) as i128;
                let lhs = ((point.x - a.x) as i128) * dy;
                let rhs = dx * ((point.y - a.y) as i128);
                let crosses_to_the_right = if dy > 0 {
                    lhs < rhs
                } else {
                    lhs > rhs
                };
                if crosses_to_the_right {
                    inside = !inside;
                }
            }
            i += 1;
        }
        inside
    }

    /// The `i`-th edge.
    fn edge(&self, i: usize) -> (s: Segment)
        requires
            i < self.vertices@.len(),
        ensures
            s == edge(self.vertices@, i as int),
    {
        let n = self.vertices.len();
        Segment::new(self.vertices[i], self.vertices[(i + 1) % n])
    }

    /// True iff `segment` shares at least one point with this polygon — its
    /// interior or its boundary.
    pub fn intersects_segment(&self, segment: Segment) -> (r: bool)
        requires
            self.in_range(),
            segment.in_range(),
        ensures
            r == spec_intersects_segment(self.vertices@, segment),
    {
        if self.contains_point(segment.a) || self.contains_point(segment.b) {
            return true;
        }
        let n = self.vertices.len();
        let mut i: usize = 0;
        while i < n
            invariant
                n == self.vertices@.len(),
                0 <= i <= n,
                self.in_range(),
                segment.in_range(),
                forall|j: int| 0 <= j < i ==> !spec_intersects(#[trigger] edge(self.vertices@, j), segment),
            decreases n - i,
        {
            let e = self.edge(i);
            proof {
                assert(self.vertices@[i as int].in_range());
                assert(self.vertices@[(i as int + 1) % (n as int)].in_range());
            }
            if e.intersects(segment) {
                return true;
            }
            i += 1;
        }
        false
    }
}

} // verus!
