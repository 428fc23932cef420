use raster::{LineIterator, Point, PointInfo};

fn points(mut line: LineIterator) -> Vec<Point> {
    line.collect_points()
}

#[test]
fn test_angled_line() {
    let line_iterator = LineIterator::new(Point(3, 1), Point(6, 4));
    let line_result: Vec<Point> = points(line_iterator);

    assert_eq!(
        line_result,
        vec![Point(3, 1), Point(4, 2), Point(5, 3), Point(6, 4)]
    );
}

#[test]
fn test_vertical_line() {
    let line_iterator = LineIterator::new(Point(3, 0), Point(3, 4));
    let line_results: Vec<Point> = points(line_iterator);

    assert_eq!(
        line_results,
        vec![
            Point(3, 0),
            Point(3, 1),
            Point(3, 2),
            Point(3, 3),
            Point(3, 4)
        ]
    );
}

#[test]
fn test_horizontal_line() {
    let line_iterator = LineIterator::new(Point(4, 2), Point(1, 2));
    let line_results: Vec<Point> = points(line_iterator);

    assert_eq!(
        line_results,
        vec![Point(4, 2), Point(3, 2), Point(2, 2), Point(1, 2)]
    );
}

#[test]
fn line_starts_and_ends_at_its_endpoints() {
    let cases = [
        (Point(0, 0), Point(7, 3)),
        (Point(5, -2), Point(-4, 9)),
        (Point(-3, -3), Point(-3, -3)),
        (Point(10, 1), Point(2, 4)),
    ];
    for (a, b) in cases {
        let pts = points(LineIterator::new(a, b));
        let expected_len = std::cmp::max((b.0 - a.0).abs(), (b.1 - a.1).abs()) + 1;
        assert_eq!(pts.len() as i32, expected_len);
        assert_eq!(pts[0], a);
        assert_eq!(*pts.last().unwrap(), b);
    }
}

#[test]
fn single_point_line() {
    let pts = points(LineIterator::new(Point(2, 2), Point(2, 2)));
    assert_eq!(pts, vec![Point(2, 2)]);
    let mut line = LineIterator::new(Point(2, 2), Point(2, 2));
    assert_eq!(line.next(), Some(PointInfo { point: Point(2, 2), diagonal_move: false }));
    assert_eq!(line.next(), None);
}

#[test]
fn reversed_diagonal_and_axis_lines_reverse_exactly() {
    let cases = [
        (Point(0, 0), Point(4, 4)),
        (Point(1, 5), Point(6, 0)),
        (Point(3, 0), Point(3, 4)),
        (Point(4, 2), Point(1, 2)),
    ];
    for (a, b) in cases {
        let forward = points(LineIterator::new(a, b));
        let mut backward = points(LineIterator::new(b, a));
        backward.reverse();
        assert_eq!(forward, backward);
    }
}

#[test]
fn shallow_line_rounds_to_nearest_and_reverses() {
    let pts = points(LineIterator::new(Point(0, 0), Point(3, 1)));
    assert_eq!(pts, vec![Point(0, 0), Point(1, 0), Point(2, 1), Point(3, 1)]);
    let back = points(LineIterator::new(Point(3, 1), Point(0, 0)));
    assert_eq!(back, vec![Point(3, 1), Point(2, 1), Point(1, 0), Point(0, 0)]);
    // A pixel centre exactly halfway goes to the lower row from either end.
    let tie = points(LineIterator::new(Point(0, 0), Point(2, 1)));
    assert_eq!(tie, vec![Point(0, 0), Point(1, 0), Point(2, 1)]);
    let mut tie_back = points(LineIterator::new(Point(2, 1), Point(0, 0)));
    tie_back.reverse();
    assert_eq!(tie_back, tie);
}

#[test]
fn every_line_reverses_exactly() {
    for x in -6..=6 {
        for y in -6..=6 {
            let a = Point(1, -2);
            let b = Point(x, y);
            let forward = points(LineIterator::new(a, b));
            let mut backward = points(LineIterator::new(b, a));
            backward.reverse();
            assert_eq!(forward, backward, "{:?} {:?}", a, b);
        }
    }
}

#[test]
fn diagonal_moves_are_reported() {
    let mut line = LineIterator::new(Point(0, 0), Point(3, 1));
    let mut flags = Vec::new();
    while let Some(PointInfo { point: _, diagonal_move }) = line.next() {
        flags.push(diagonal_move);
    }
    assert_eq!(flags, vec![false, true, false, false]);

    let mut axis_line = LineIterator::new(Point(0, 0), Point(0, 5));
    while let Some(info) = axis_line.next() {
        assert!(!info.diagonal_move);
    }
}

#[test]
fn error_offset_shifts_minor_steps() {
    // An offset of 2 on a line with 3 major steps shifts it by 2/3 of a pixel.
    let pts = points(LineIterator::new_with_error(Point(0, 0), Point(3, 1), 2));
    assert_eq!(pts, vec![Point(0, 0), Point(1, 1), Point(2, 1), Point(3, 2)]);
}

#[test]
fn delta_values_and_signs() {
    assert_eq!(LineIterator::get_delta_values(Point(0, 0), Point(3, -7)), (7, 3));
    assert_eq!(LineIterator::get_delta_values(Point(0, 0), Point(4, 4)), (4, 4));
    assert_eq!(LineIterator::get_sub_sign(Point(0, 0), Point(3, -7)), raster::Sign::Positive);
    assert_eq!(LineIterator::get_sub_sign(Point(0, 0), Point(-7, -3)), raster::Sign::Negative);
    let line = LineIterator::new(Point(0, 0), Point(-2, 9));
    assert_eq!(line.get_axis_main(), raster::Axis::Y);
    assert_eq!(line.get_sign_main(), raster::Sign::Positive);
    assert_eq!(line.get_sign_sub(), raster::Sign::Negative);
}
