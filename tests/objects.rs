use raster::{nearest_ratio_exec, Axis, Length, Point, Sign, SUBPIXELS};

#[test]
fn perpendicular_points_of_horizontal_direction() {
    let (a, b) = Point(0, 0).get_perpendicular_points(&Point(10, 0), Length::from_pixels(5));
    assert_eq!(a, Point(0, 5));
    assert_eq!(b, Point(0, -5));
}

#[test]
fn perpendicular_points_of_diagonal_direction() {
    // 5 / sqrt(2) = 3.54 rounds to 4.
    let (a, b) = Point(0, 0).get_perpendicular_points(&Point(10, 10), Length::from_pixels(5));
    assert_eq!(a, Point(-4, 4));
    assert_eq!(b, Point(4, -4));
}

#[test]
fn perpendicular_points_with_fraction() {
    // 2.5 pixels along the normal of a vertical line rounds half up to 3.
    let (a, b) = Point(1, 1).get_perpendicular_points(&Point(1, 9), Length { units: 640 });
    assert_eq!(a, Point(-2, 1));
    assert_eq!(b, Point(4, 1));
}

#[test]
fn perpendicular_points_of_zero_direction() {
    let (a, b) = Point(7, -3).get_perpendicular_points(&Point(7, -3), Length::from_pixels(5));
    assert_eq!(a, Point(7, -3));
    assert_eq!(b, Point(7, -3));
}

#[test]
fn nearest_ratio_rounds_half_up() {
    assert_eq!(nearest_ratio_exec(5, 4), 3);
    assert_eq!(nearest_ratio_exec(3, 4), 2);
    assert_eq!(nearest_ratio_exec(7, 2), 5);
    assert_eq!(nearest_ratio_exec(0, 9), 0);
    assert_eq!(nearest_ratio_exec(1, 9), 0);
    assert_eq!(nearest_ratio_exec(2, 9), 1);
}

#[test]
fn point_arithmetic() {
    assert_eq!(Point(1, 2).add(Point(3, -4)), Point(4, -2));
    assert_eq!(Point(1, 2).sub(Point(3, -4)), Point(-2, 6));
    assert_eq!(Point(1, 2).add_axis(Axis::X, 5), Point(6, 2));
    assert_eq!(Point(1, 2).add_axis(Axis::Y, -5), Point(1, -3));
}

#[test]
fn axis_and_sign() {
    assert_eq!(Axis::X.other(), Axis::Y);
    assert_eq!(Axis::Y.other(), Axis::X);
    assert_eq!(Sign::Positive.to_i32(), 1);
    assert_eq!(Sign::Negative.to_i32(), -1);
    assert_eq!(Sign::Positive.negate(), Sign::Negative);
    assert_eq!(Sign::Negative.negate(), Sign::Positive);
}

#[test]
fn length_from_pixels() {
    assert_eq!(Length::from_pixels(3).units, 3 * SUBPIXELS);
}

#[test]
fn perpendicular_points_round_each_coordinate_half_away_from_zero() {
    // 10 - 0.5 = 9.5 rounds to 10, 10 + 0.5 = 10.5 rounds to 11.
    let (a, b) = Point(10, 10).get_perpendicular_points(&Point(50, 10), Length { units: 128 });
    assert_eq!(a, Point(10, 11));
    assert_eq!(b, Point(10, 10));
    // Around zero: 0.5 rounds to 1 and -0.5 to -1.
    let (a, b) = Point(0, 0).get_perpendicular_points(&Point(10, 0), Length { units: 128 });
    assert_eq!(a, Point(0, 1));
    assert_eq!(b, Point(0, -1));
    // Negative side: -10 + 0.5 = -9.5 rounds to -10, -10 - 0.5 to -11.
    let (a, b) = Point(-10, -10).get_perpendicular_points(&Point(-50, -10), Length { units: 128 });
    assert_eq!(a, Point(-10, -11));
    assert_eq!(b, Point(-10, -10));
}
