use raster::{Canvas, Colour, Length, Point, ThickLine};
use std::collections::HashSet;

fn stroke(start: Point, end: Point, pixels: u32) -> HashSet<Point> {
    let mut thick_line_iterator = ThickLine::new(start, end, Length::from_pixels(pixels));
    thick_line_iterator.collect_points().into_iter().collect()
}

#[test]
fn basic_horizontal_thick_line() {
    let line_result: HashSet<Point> = stroke(Point(10, 10), Point(50, 10), 5);

    for x in 10..=50 {
        for y in 5..=15 {
            let point = Point(x, y);
            if !line_result.contains(&point) {
                println!("{point:?}");
                assert!(false);
            }
        }
    }
}

#[test]
fn angled_line() {
    let line_result: HashSet<Point> = stroke(Point(10, 10), Point(20, 5), 3);

    let size: u32 = 30;
    let mut canvas = Canvas::new(size, size, Colour { r: 255, g: 255, b: 255, a: 255 });
    let black = Colour::black();
    for point in line_result.iter() {
        let _ = canvas.set_color_at(point.0 as u32, point.1 as u32, black);
    }
    assert_eq!(canvas.get_color_at(10, 10), Some(black));
}

#[test]
fn horizontal_stroke_stays_in_its_band() {
    let pts = stroke(Point(10, 10), Point(50, 10), 5);
    for p in pts.iter() {
        assert!(p.0 >= 10 && p.0 <= 50, "{p:?}");
        assert!(p.1 >= 5 && p.1 <= 15, "{p:?}");
    }
    assert_eq!(pts.len(), 41 * 11);
}

#[test]
fn vertical_stroke_covers_band() {
    let pts = stroke(Point(4, 0), Point(4, 20), 2);
    for y in 0..=20 {
        for x in 2..=6 {
            assert!(pts.contains(&Point(x, y)), "{x} {y}");
        }
    }
}

#[test]
fn diagonal_stroke_covers_centre_line() {
    let pts = stroke(Point(0, 0), Point(20, 20), 3);
    for k in 0..=20 {
        assert!(pts.contains(&Point(k, k)), "{k}");
    }
}

#[test]
fn zero_thickness_is_the_line_itself() {
    let mut thick = ThickLine::new(Point(0, 0), Point(6, 2), Length { units: 0 });
    let pts = thick.collect_points();
    assert_eq!(pts[0], Point(0, 0));
    assert_eq!(*pts.last().unwrap(), Point(6, 2));
    assert_eq!(pts.len(), 7);
    assert_eq!(thick.next(), None);
}

#[test]
fn degenerate_stroke_is_its_start() {
    let mut thick = ThickLine::new(Point(3, 3), Point(3, 3), Length::from_pixels(4));
    assert_eq!(thick.collect_points(), vec![Point(3, 3)]);
}
