use vstd::prelude::*;

verus! {

/// The largest coordinate magnitude (in nanometres) the exact predicates
/// of this kernel handle without integer overflow, on either axis: 1 m.
/// `Segment::distance_sq` multiplies two squared lengths together, and at
/// this bound the worst case (about 6.4e37) still fits in `i128`.
pub const MAX_COORDINATE_NM: i64 = 1_000_000_000;

/// A point in board space, in integer nanometres.
#[derive(Debug, Clone, Copy, PartialEq, Eq, Structural, Hash)]
pub struct Point {
    pub x: i64,
    pub y: i64,
}

/// A displacement in board space, in integer nanometres.
#[derive(Debug, Clone, Copy, PartialEq, Eq, Structural, Hash)]
pub struct Vector {
    pub x: i64,
    pub y: i64,
}

/// True iff `v` lies within `MAX_COORDINATE_NM` of zero.
pub open spec fn coord_in_range(v: int) -> bool {
    -MAX_COORDINATE_NM <= v <= MAX_COORDINATE_NM
}

pub open spec fn fits_i64(v: int) -> bool {
    i64::MIN <= v <= i64::MAX
}

pub open spec fn fits_i128(v: int) -> bool {
    i128::MIN <= v <= i128::MAX
}

impl Point {
    /// Both coordinates lie within the supported range.
    pub open spec fn in_range(self) -> bool {
        coord_in_range(self.x as int) && coord_in_range(self.y as int)
    }

    /// The displacement `self - other`, as mathematical integers.
    pub open spec fn minus(self, other: Point) -> (int, int) {
        (self.x - other.x, self.y - other.y)
    }

    /// Coordinates must lie within `MAX_COORDINATE_NM` of the origin.
    pub fn new(x: i64, y: i64) -> (p: Point)
        requires
            coord_in_range(x as int),
            coord_in_range(y as int),
        ensures
            p.x == x,
            p.y == y,
            p.in_range(),
    {
        Point { x, y }
    }

    pub fn origin() -> (p: Point)
        ensures
            p.x == 0,
            p.y == 0,
    {
        Point::new(0, 0)
    }

    /// The displacement from `other` to `self`.
    pub fn sub(self, other: Point) -> (v: Vector)
        requires
            fits_i64(self.x - other.x),
            fits_i64(self.y - other.y),
        ensures
            v.x == self.x - other.x,
            v.y == self.y - other.y,
    {
        Vector::new(self.x - other.x, self.y - other.y)
    }

    /// `self` moved by `v`; the result must stay in range.
    pub fn add(self, v: Vector) -> (p: Point)
        requires
            coord_in_range(self.x + v.x),
            coord_in_range(self.y + v.y),
        ensures
            p.x == self.x + v.x,
            p.y == self.y + v.y,
    {
        Point::new(self.x + v.x, self.y + v.y)
    }
}

/// Exact squared length of `(x, y)`.
pub open spec fn len_sq(x: int, y: int) -> int {
    x * x + y * y
}

/// Exact 2D cross product `(ax, ay) x (bx, by)`.
pub open spec fn cross(ax: int, ay: int, bx: int, by: int) -> int {
    ax * by - ay * bx
}

/// Exact dot product.
pub open spec fn dot(ax: int, ay: int, bx: int, by: int) -> int {
    ax * bx + ay * by
}

pub proof fn lemma_i64_square_bound(x: i64)
    ensures
        0 <= (x as int) * (x as int) <= 0x4000_0000_0000_0000_0000_0000_0000_0000,
{
    assert(0 <= (x as int) * (x as int) <= 0x4000_0000_0000_0000_0000_0000_0000_0000)
        by (nonlinear_arith)
        requires
            -0x8000_0000_0000_0000 <= x <= 0x7fff_ffff_ffff_ffff,
    ;
}

pub proof fn lemma_i64_product_bound(x: i64, y: i64)
    ensures
        -0x4000_0000_0000_0000_0000_0000_0000_0000 <= (x as int) * (y as int)
            <= 0x4000_0000_0000_0000_0000_0000_0000_0000,
{
    assert(-0x4000_0000_0000_0000_0000_0000_0000_0000 <= (x as int) * (y as int)
        <= 0x4000_0000_0000_0000_0000_0000_0000_0000) by (nonlinear_arith)
        requires
            -0x8000_0000_0000_0000 <= x <= 0x7fff_ffff_ffff_ffff,
            -0x8000_0000_0000_0000 <= y <= 0x7fff_ffff_ffff_ffff,
    ;
}

impl Vector {
    pub fn new(x: i64, y: i64) -> (v: Vector)
        ensures
            v.x == x,
            v.y == y,
    {
        Vector { x, y }
    }

    /// Exact squared length as `i128`.
    pub fn length_sq(self) -> (r: i128)
        requires
            fits_i128(len_sq(self.x as int, self.y as int)),
        ensures
            r == len_sq(self.x as int, self.y as int),
    {
        proof {
            lemma_i64_square_bound(self.x);
            lemma_i64_square_bound(self.y);
        }
        let x = self.x as i128;
        let y = self.y as i128;
        x * x + y * y
    }

    /// Exact 2D cross product; positive means `other` is counter-clockwise
    /// from `self`.
    pub fn cross(self, other: Vector) -> (r: i128)
        requires
            fits_i128(cross(self.x as int, self.y as int, other.x as int, other.y as int)),
        ensures
            r == cross(self.x as int, self.y as int, other.x as int, other.y as int),
    {
        proof {
            lemma_i64_product_bound(self.x, other.y);
            lemma_i64_product_bound(self.y, other.x);
        }
        self.x as i128 * other.y as i128 - self.y as i128 * other.x as i128
    }

    /// Exact dot product.
    pub fn dot(self, other: Vector) -> (r: i128)
        requires
            fits_i128(dot(self.x as int, self.y as int, other.x as int, other.y as int)),
        ensures
            r == dot(self.x as int, self.y as int, other.x as int, other.y as int),
    {
        proof {
            lemma_i64_product_bound(self.x, other.x);
            lemma_i64_product_bound(self.y, other.y);
        }
        self.x as i128 * other.x as i128 + self.y as i128 * other.y as i128
    }
}

/// Differences of in-range coordinates are at most `2 * MAX_COORDINATE_NM`.
pub proof fn lemma_diff_bounds(a: Point, b: Point)
    requires
        a.in_range(),
        b.in_range(),
    ensures
        -2 * MAX_COORDINATE_NM <= a.x - b.x <= 2 * MAX_COORDINATE_NM,
        -2 * MAX_COORDINATE_NM <= a.y - b.y <= 2 * MAX_COORDINATE_NM,
{
}

/// Products of two differences of in-range coordinates are bounded.
pub proof fn lemma_small_product(u: int, v: int)
    requires
        -2 * MAX_COORDINATE_NM <= u <= 2 * MAX_COORDINATE_NM,
        -2 * MAX_COORDINATE_NM <= v <= 2 * MAX_COORDINATE_NM,
    ensures
        -4_000_000_000_000_000_000 <= u * v <= 4_000_000_000_000_000_000,
{
    assert(-4_000_000_000_000_000_000 <= u * v <= 4_000_000_000_000_000_000) by (nonlinear_arith)
        requires
            -2_000_000_000 <= u <= 2_000_000_000,
            -2_000_000_000 <= v <= 2_000_000_000,
    ;
}

} // verus!
