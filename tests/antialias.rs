use raster::{draw_antialiased_thick_line, Coverage, Length, Point, FULL_COVERAGE};
use std::collections::HashMap;

fn column_sums(records: &[Coverage]) -> HashMap<i32, u32> {
    let mut sums = HashMap::new();
    for c in records {
        *sums.entry(c.point.0).or_insert(0) += c.intensity;
    }
    sums
}

#[test]
fn horizontal_antialiased_line_profile() {
    let records = draw_antialiased_thick_line(Point(0, 5), Point(10, 5), Length::from_pixels(4));
    assert_eq!(records.len(), 55);
    let column: Vec<(i32, u32)> = records
        .iter()
        .filter(|c| c.point.0 == 3)
        .map(|c| (c.point.1, c.intensity))
        .collect();
    assert_eq!(column, vec![(3, 128), (4, 256), (5, 256), (6, 256), (7, 128)]);
}

#[test]
fn steep_antialiased_line_swaps_back() {
    let records = draw_antialiased_thick_line(Point(5, 10), Point(5, 0), Length::from_pixels(4));
    assert_eq!(records.len(), 55);
    let row: Vec<(i32, u32)> = records
        .iter()
        .filter(|c| c.point.1 == 3)
        .map(|c| (c.point.0, c.intensity))
        .collect();
    assert_eq!(row, vec![(3, 128), (4, 256), (5, 256), (6, 256), (7, 128)]);
}

#[test]
fn far_pixels_are_never_emitted_and_coverage_is_bounded() {
    let start = Point(0, 0);
    let end = Point(30, 11);
    let width = Length { units: 700 };
    let records = draw_antialiased_thick_line(start, end, width);
    let half = 350.0 / 256.0;
    let len = ((30.0f64).powi(2) + (11.0f64).powi(2)).sqrt();
    let dist = |p: Point| ((30.0 * p.1 as f64) - (11.0 * p.0 as f64)).abs() / len;
    for c in records.iter() {
        assert!(c.intensity <= FULL_COVERAGE);
        assert!(dist(c.point) < half + 1.0 + 1e-9, "{:?}", c);
    }
    for a in records.iter() {
        for b in records.iter() {
            if dist(a.point) + 1e-9 < dist(b.point) {
                assert!(a.intensity >= b.intensity, "{:?} {:?}", a, b);
            }
        }
    }
}

#[test]
fn cross_section_sums_to_width() {
    let cases = [(Point(0, 0), Point(20, 20)), (Point(0, 0), Point(40, 20)), (Point(0, 0), Point(40, 10)), (Point(0, 5), Point(30, 5))];
    for (a, b) in cases {
        let records = draw_antialiased_thick_line(a, b, Length::from_pixels(4));
        let sums = column_sums(&records);
        let dx = (b.0 - a.0) as f64;
        let dy = (b.1 - a.1) as f64;
        let cos = dx / (dx * dx + dy * dy).sqrt();
        for x in 5..(b.0 - 5) {
            let width = sums[&x] as f64 / FULL_COVERAGE as f64 * cos;
            assert!((width - 4.0).abs() <= 0.5, "{:?} {:?} {} {}", a, b, x, width);
        }
    }
}

#[test]
fn zero_length_antialiased_line_covers_window() {
    let records = draw_antialiased_thick_line(Point(2, 2), Point(2, 2), Length::from_pixels(4));
    let points: Vec<Point> = records.iter().map(|c| c.point).collect();
    assert_eq!(points, (-2..=6).map(|y| Point(2, y)).collect::<Vec<_>>());
    assert!(records.iter().all(|c| c.intensity == FULL_COVERAGE));
}

#[test]
fn axis_aligned_cross_sections_sum_exactly() {
    for (a, b) in [(Point(0, 5), Point(12, 5)), (Point(7, 20), Point(7, 3))] {
        for units in [1024u32, 700, 300, 256, 128, 0] {
            let records = draw_antialiased_thick_line(a, b, Length { units });
            let half = units / 2;
            let expected = if half >= 128 { 2 * half } else { half + 128 };
            let mut sums: HashMap<(i32, i32), u32> = HashMap::new();
            for c in records.iter() {
                let key = if a.1 == b.1 { (c.point.0, 0) } else { (0, c.point.1) };
                *sums.entry(key).or_insert(0) += c.intensity;
            }
            assert_eq!(sums.len() as i32, (b.0 - a.0).abs() + (b.1 - a.1).abs() + 1);
            for (_, total) in sums {
                assert_eq!(total, expected, "{:?} {:?} {}", a, b, units);
            }
        }
    }
}
