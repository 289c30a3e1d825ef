use approx::{AbsDiffEq, UlpsEq};
use glam::Vec2;
use point_index::geometry::Point;
use point_index::segment::{LineSegment, LineSegmentIterator};

fn close(a: f32, b: f32) -> bool {
    a.ulps_eq(&b, f32::default_epsilon(), f32::default_max_ulps())
}

fn almost_eq(a: &LineSegment<Vec2>, b: &LineSegment<Vec2>) -> bool {
    close(a.0.x, b.0.x) && close(a.0.y, b.0.y) && close(a.1.x, b.1.x) && close(a.1.y, b.1.y)
}

fn segment(a: Vec2, b: Vec2) -> LineSegment<Vec2> {
    if close(a.x, b.x) && close(a.y, b.y) {
        panic!("Points a {:?} and b {:?} are too close together.", a, b);
    }
    LineSegment(a, b)
}

#[test]
fn test_iterator() {
    let vertices = vec![Vec2::new(0., 1.), Vec2::new(0., 2.), Vec2::new(0., 3.)];
    let mut segments = LineSegmentIterator::new(&vertices);
    assert!(almost_eq(
        &segments.next().unwrap(),
        &segment(Vec2::new(0., 1.), Vec2::new(0., 2.))
    ));
    assert!(almost_eq(
        &segments.next().unwrap(),
        &segment(Vec2::new(0., 2.), Vec2::new(0., 3.))
    ));
    assert!(segments.next().is_none());
    assert!(segments.next().is_none());
}

#[test]
fn short_chains_have_no_side() {
    let nothing: Vec<Point> = Vec::new();
    assert!(LineSegmentIterator::new(&nothing).next().is_none());
    let single = vec![Point::new(1, 1)];
    let mut sides = LineSegmentIterator::new(&single);
    assert!(sides.next().is_none());
    assert!(sides.next().is_none());
}

#[test]
fn closed_chain_has_as_many_sides_as_corners() {
    let square = vec![
        Point::new(0, 0),
        Point::new(2, 0),
        Point::new(2, 2),
        Point::new(0, 2),
        Point::new(0, 0),
    ];
    let mut sides = LineSegmentIterator::new(&square);
    let mut seen: Vec<(Point, Point)> = Vec::new();
    while let Some(side) = sides.next() {
        seen.push((side.0, side.1));
    }
    assert_eq!(
        seen,
        vec![
            (Point::new(0, 0), Point::new(2, 0)),
            (Point::new(2, 0), Point::new(2, 2)),
            (Point::new(2, 2), Point::new(0, 2)),
            (Point::new(0, 2), Point::new(0, 0)),
        ]
    );
}
