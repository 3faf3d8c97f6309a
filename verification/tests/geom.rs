use tessera::geom::circle::Circle;
use tessera::geom::point::{Point, Vector, MAX_COORDINATE_NM};
use tessera::geom::polygon::Polygon;
use tessera::geom::predicates::{orient, Orientation};
use tessera::geom::segment::Segment;

#[test]
fn sub_add_roundtrip() {
    let a = Point::new(10, 20);
    let b = Point::new(3, -7);
    assert_eq!(b.add(a.sub(b)), a);
}

#[test]
fn length_sq_matches_pythagoras() {
    assert_eq!(Vector::new(3, 4).length_sq(), 25);
    assert_eq!(Vector::new(-3, 4).length_sq(), 25);
}

#[test]
fn cross_is_antisymmetric_and_zero_for_parallel() {
    let a = Vector::new(2, 0);
    let b = Vector::new(0, 3);
    assert_eq!(a.cross(b), 6);
    assert_eq!(b.cross(a), -6);
    assert_eq!(a.cross(Vector::new(4, 0)), 0);
}

#[test]
fn no_overflow_at_max_coordinate() {
    let big = MAX_COORDINATE_NM;
    let v = Vector::new(big, big);
    let _ = v.length_sq();
    let _ = v.cross(Vector::new(-big, big));
    let _ = v.dot(Vector::new(-big, big));
}

#[test]
fn max_coordinate_products_are_exact() {
    let big = MAX_COORDINATE_NM;
    let v = Vector::new(big, big);
    let b = big as i128;
    assert_eq!(v.length_sq(), 2 * b * b);
    assert_eq!(v.cross(Vector::new(-big, big)), 2 * b * b);
    assert_eq!(v.dot(Vector::new(-big, big)), 0);
}

#[test]
fn two_vias_touching_is_zero_clearance() {
    let a = Circle::new(Point::new(0, 0), 1000);
    let b = Circle::new(Point::new(2000, 0), 1000);
    assert!(a.clears_circle(b, 0));
    assert!(!a.clears_circle(b, 1));
}

#[test]
fn clears_circle_is_symmetric() {
    let a = Circle::new(Point::new(0, 0), 500);
    let b = Circle::new(Point::new(3000, 4000), 700);
    assert_eq!(a.clears_circle(b, 100), b.clears_circle(a, 100));
}

#[test]
fn segment_clearance_accounts_for_radius() {
    let seg = Segment::new(Point::new(0, 0), Point::new(100, 0));
    let via = Circle::new(Point::new(50, 10), 5);
    assert!(via.clears_segment(seg, 5));
    assert!(!via.clears_segment(seg, 6));
}

#[test]
fn circle_point_clearance_is_exact_at_the_boundary() {
    let c = Circle::new(Point::new(0, 0), 100);
    assert!(c.clears_point(Point::new(300, 400), 400));
    assert!(!c.clears_point(Point::new(300, 400), 401));
}

#[test]
fn ccw_triangle() {
    let a = Point::new(0, 0);
    let b = Point::new(1, 0);
    let c = Point::new(0, 1);
    assert_eq!(orient(a, b, c), Orientation::CounterClockwise);
    assert_eq!(orient(a, c, b), Orientation::Clockwise);
}

#[test]
fn collinear_is_exact_not_approximate() {
    let a = Point::new(0, 0);
    let b = Point::new(1_000_003, 3_000_009);
    let c = Point::new(2_000_006, 6_000_018);
    assert_eq!(orient(a, b, c), Orientation::Collinear);
}

#[test]
fn degenerate_a_equals_b() {
    let a = Point::new(5, 5);
    assert_eq!(orient(a, a, Point::new(0, 0)), Orientation::Collinear);
}

#[test]
fn distance_to_perpendicular_foot() {
    let seg = Segment::new(Point::new(0, 0), Point::new(10, 0));
    let d = seg.distance_sq(Point::new(5, 3));
    assert_eq!(d.numerator, 9 * d.denominator);
}

#[test]
fn distance_clamped_to_endpoint() {
    let seg = Segment::new(Point::new(0, 0), Point::new(10, 0));
    let d = seg.distance_sq(Point::new(13, 4));
    assert_eq!(d.numerator, 25 * d.denominator);
}

#[test]
fn degenerate_segment_is_a_point() {
    let seg = Segment::new(Point::new(2, 2), Point::new(2, 2));
    let d = seg.distance_sq(Point::new(5, 6));
    assert_eq!(d.numerator, 25);
    assert_eq!(d.denominator, 1);
}

#[test]
fn clears_point_exact_boundary() {
    let seg = Segment::new(Point::new(0, 0), Point::new(10, 0));
    let p = Point::new(5, 3);
    assert!(seg.clears_point(p, 3));
    assert!(!seg.clears_point(p, 4));
}

#[test]
fn point_on_segment_has_zero_clearance() {
    let seg = Segment::new(Point::new(0, 0), Point::new(10, 0));
    assert!(seg.clears_point(Point::new(5, 0), 0));
    assert!(!seg.clears_point(Point::new(5, 0), 1));
}

#[test]
fn crossing_segments_intersect_and_have_zero_clearance() {
    let a = Segment::new(Point::new(0, 0), Point::new(10, 10));
    let b = Segment::new(Point::new(0, 10), Point::new(10, 0));
    assert!(a.intersects(b));
    assert!(a.clears_segment(b, 0));
    assert!(!a.clears_segment(b, 1));
}

#[test]
fn parallel_segments_clearance_is_their_gap() {
    let a = Segment::new(Point::new(0, 0), Point::new(10, 0));
    let b = Segment::new(Point::new(0, 7), Point::new(10, 7));
    assert!(!a.intersects(b));
    assert!(a.clears_segment(b, 7));
    assert!(!a.clears_segment(b, 8));
}

#[test]
fn rational_distance_threshold() {
    let seg = Segment::new(Point::new(0, 0), Point::new(10, 0));
    let d = seg.distance_sq(Point::new(5, 3));
    assert!(d.at_least(9));
    assert!(!d.at_least(10));
}

fn unit_square() -> Polygon {
    Polygon::new(vec![
        Point::new(0, 0),
        Point::new(10, 0),
        Point::new(10, 10),
        Point::new(0, 10),
    ])
}

#[test]
fn contains_a_point_solidly_inside() {
    assert!(unit_square().contains_point(Point::new(5, 5)));
}

#[test]
fn does_not_contain_a_point_solidly_outside() {
    assert!(!unit_square().contains_point(Point::new(20, 20)));
}

#[test]
fn does_not_contain_a_point_outside_but_aligned_with_an_edge() {
    assert!(!unit_square().contains_point(Point::new(50, 5)));
}

#[test]
fn concave_polygon_excludes_its_notch() {
    let c_shape = Polygon::new(vec![
        Point::new(0, 0),
        Point::new(10, 0),
        Point::new(10, 4),
        Point::new(5, 4),
        Point::new(5, 6),
        Point::new(10, 6),
        Point::new(10, 10),
        Point::new(0, 10),
    ]);
    assert!(c_shape.contains_point(Point::new(2, 5)), "inside the body");
    assert!(
        !c_shape.contains_point(Point::new(8, 5)),
        "inside the notch, not the body"
    );
}

#[test]
fn intersects_segment_fully_inside() {
    let seg = Segment::new(Point::new(2, 2), Point::new(8, 2));
    assert!(unit_square().intersects_segment(seg));
}

#[test]
fn intersects_segment_straddling_the_boundary() {
    let seg = Segment::new(Point::new(5, 5), Point::new(15, 5));
    assert!(unit_square().intersects_segment(seg));
}

#[test]
fn does_not_intersect_a_segment_fully_outside() {
    let seg = Segment::new(Point::new(20, 20), Point::new(30, 20));
    assert!(!unit_square().intersects_segment(seg));
}

#[test]
fn intersects_a_segment_that_only_touches_an_edge() {
    let seg = Segment::new(Point::new(10, 0), Point::new(20, 5));
    assert!(unit_square().intersects_segment(seg));
}

#[test]
fn does_not_intersect_a_segment_that_passes_nearby_without_touching() {
    let seg = Segment::new(Point::new(11, -5), Point::new(11, 15));
    assert!(!unit_square().intersects_segment(seg));
}
