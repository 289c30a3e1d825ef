use point_index::geometry::Point;
use point_index::path::{BinaryPath, Half};

// Coordinates below are in fifths of a unit, so that the point (1, 0.2) of a
// domain of half-size (2, 3) is the grid point (5, 1) of half-size (10, 15).

#[test]
fn test_path() {
    let mut path = BinaryPath::new(Point::new(10, 15), Point::new(5, 1));

    // right: x from -10 to 10, divided at 0
    assert_eq!(path.step(), Half::BottomRight);
    // bottom: y from -15 to 15, divided at 0
    assert_eq!(path.step(), Half::BottomRight);
    // right: x from 0 to 10, divided at 5, and a point on the dividing line
    // lies in the higher half
    assert_eq!(path.step(), Half::BottomRight);
    // top: y from 0 to 15, divided at 8
    assert_eq!(path.step(), Half::TopLeft);
    // left: x from 5 to 10, divided at 8
    assert_eq!(path.step(), Half::TopLeft);
    // top: y from 0 to 7, divided at 4
    assert_eq!(path.step(), Half::TopLeft);
}

#[test]
fn descent_narrows_the_rectangle() {
    let mut path = BinaryPath::new(Point::new(10, 15), Point::new(5, 1));
    assert_eq!(path.lower(), Point::new(-10, -15));
    assert_eq!(path.upper(), Point::new(10, 15));
    for _ in 0..6 {
        path.step();
    }
    assert_eq!(path.depth(), 6);
    assert_eq!(path.lower(), Point::new(5, 0));
    assert_eq!(path.upper(), Point::new(7, 3));
    assert_eq!(path.target(), Point::new(5, 1));
}

#[test]
fn descent_just_below_the_dividing_line() {
    let mut path = BinaryPath::new(Point::new(10, 15), Point::new(4, 1));

    assert_eq!(path.step(), Half::BottomRight);
    assert_eq!(path.step(), Half::BottomRight);
    // x from 0 to 10, divided at 5
    assert_eq!(path.step(), Half::TopLeft);
    assert_eq!(path.step(), Half::TopLeft);
    // x from 0 to 4, divided at 2
    assert_eq!(path.step(), Half::BottomRight);
    assert_eq!(path.step(), Half::TopLeft);
}

#[test]
fn descent_near_the_centre() {
    let mut path = BinaryPath::new(Point::new(10, 15), Point::new(1, 1));

    assert_eq!(path.step(), Half::BottomRight);
    assert_eq!(path.step(), Half::BottomRight);
    assert_eq!(path.step(), Half::TopLeft);
    assert_eq!(path.step(), Half::TopLeft);
    assert_eq!(path.step(), Half::TopLeft);
    assert_eq!(path.step(), Half::TopLeft);
}

#[test]
fn descent_on_the_upper_border_keeps_to_the_higher_half() {
    let mut path = BinaryPath::new(Point::new(10, 15), Point::new(10, 15));
    for _ in 0..12 {
        assert_eq!(path.step(), Half::BottomRight);
    }
    assert_eq!(path.lower(), Point::new(10, 15));
    assert_eq!(path.upper(), Point::new(10, 15));
}

#[test]
fn descent_on_the_lower_border_keeps_to_the_lower_half() {
    let mut path = BinaryPath::new(Point::new(10, 15), Point::new(-10, -15));
    // x: -10..10, -10..-1, -10..-6, -10..-9, -10; y: -15..15, -15..-1,
    // -15..-9, -15..-13, -15
    for _ in 0..8 {
        assert_eq!(path.step(), Half::TopLeft);
    }
    assert_eq!(path.lower(), Point::new(-10, -15));
    assert_eq!(path.upper(), Point::new(-10, -15));
    // a single point is left: it lies in the higher half from now on
    assert_eq!(path.step(), Half::BottomRight);
    assert_eq!(path.step(), Half::BottomRight);
    assert_eq!(path.lower(), Point::new(-10, -15));
    assert_eq!(path.upper(), Point::new(-10, -15));
}

#[test]
fn side_of_uses_the_current_axis() {
    let path = BinaryPath::new(Point::new(8, 8), Point::new(0, 0));
    assert_eq!(path.side_of(Point::new(-1, 7)), Half::TopLeft);
    assert_eq!(path.side_of(Point::new(0, -7)), Half::BottomRight);
    let down = path.branch(Half::TopLeft);
    assert_eq!(down.lower(), Point::new(-8, -8));
    assert_eq!(down.upper(), Point::new(-1, 8));
    assert_eq!(down.side_of(Point::new(-1, 7)), Half::BottomRight);
    assert_eq!(down.side_of(Point::new(-1, -1)), Half::TopLeft);
    assert_eq!(down.target(), Point::new(0, 0));
}

#[test]
fn three_points_wide_domain_comes_down_to_single_points() {
    let mut path = BinaryPath::new(Point::new(1, 1), Point::new(0, 0));
    // -1..1 divided at 0
    assert_eq!(path.step(), Half::BottomRight);
    assert_eq!(path.step(), Half::BottomRight);
    // 0..1 divided at 1
    assert_eq!(path.step(), Half::TopLeft);
    assert_eq!(path.step(), Half::TopLeft);
    assert_eq!(path.lower(), Point::new(0, 0));
    assert_eq!(path.upper(), Point::new(0, 0));
    // a single point divides no further: it lies in the higher half, and
    // the lower half holds nothing
    assert_eq!(path.step(), Half::BottomRight);
    assert_eq!(path.lower(), Point::new(0, 0));
    assert_eq!(path.upper(), Point::new(0, 0));
    let nothing = path.branch(Half::TopLeft);
    assert_eq!(nothing.lower(), Point::new(0, 0));
    assert_eq!(nothing.upper(), Point::new(0, -1));
}

#[test]
fn widest_domain_does_not_overflow() {
    let mut path = BinaryPath::new(Point::new(i32::MAX, i32::MAX), Point::new(i32::MAX - 1, i32::MIN + 1));
    assert_eq!(path.lower(), Point::new(-i32::MAX, -i32::MAX));
    assert_eq!(path.upper(), Point::new(i32::MAX, i32::MAX));
    assert_eq!(path.step(), Half::BottomRight);
    assert_eq!(path.step(), Half::TopLeft);
    assert_eq!(path.lower(), Point::new(0, -i32::MAX));
    assert_eq!(path.upper(), Point::new(i32::MAX, -1));
    let mut corner = BinaryPath::new(Point::new(i32::MAX, i32::MAX), Point::new(i32::MAX, i32::MAX));
    for _ in 0..70 {
        assert_eq!(corner.step(), Half::BottomRight);
    }
    assert_eq!(corner.lower(), Point::new(i32::MAX, i32::MAX));
    assert_eq!(corner.upper(), Point::new(i32::MAX, i32::MAX));
}
