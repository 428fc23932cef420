use raster::{Canvas, Colour, Length, OutOfBounds, PaintSettings};

const WHITE: Colour = Colour { r: 255, g: 255, b: 255, a: 255 };
const RED: Colour = Colour { r: 255, g: 0, b: 0, a: 255 };

fn settings(radius_units: u32, colour: Colour) -> PaintSettings {
    PaintSettings::new(Length { units: radius_units }, colour)
}

fn painted(canvas: &Canvas) -> Vec<(u32, u32)> {
    let mut out = Vec::new();
    for y in 0..canvas.height() {
        for x in 0..canvas.width() {
            if canvas.get_color_at(x, y) != Some(WHITE) {
                out.push((x, y));
            }
        }
    }
    out
}

#[test]
fn canvas_reads_and_writes() {
    let mut canvas = Canvas::new(4, 3, WHITE);
    assert_eq!(canvas.width(), 4);
    assert_eq!(canvas.height(), 3);
    assert_eq!(canvas.set_color_at(3, 2, RED), Ok(()));
    assert_eq!(canvas.get_color_at(3, 2), Some(RED));
    assert_eq!(canvas.get_color_at(2, 2), Some(WHITE));
    assert_eq!(canvas.set_color_at(4, 0, RED), Err(OutOfBounds));
    assert_eq!(canvas.set_color_at(0, 3, RED), Err(OutOfBounds));
    assert_eq!(canvas.get_color_at(4, 0), None);
    assert_eq!(painted(&canvas), vec![(3, 2)]);
}

#[test]
fn default_settings_and_alpha() {
    let s = PaintSettings::default();
    assert_eq!(s.radius.units, 13);
    assert_eq!(s.colour, Colour::black());
    assert_eq!(RED.with_alpha(7), Colour { r: 255, g: 0, b: 0, a: 7 });
}

#[test]
fn spot_in_corner_is_clipped() {
    let mut canvas = Canvas::new(10, 10, WHITE);
    // radius 1.0 on a canvas 10 pixels wide spanning 10.0 units: one pixel.
    canvas.draw_spot(0, 0, &settings(256, RED), Length::from_pixels(10));
    assert_eq!(painted(&canvas), vec![(0, 0), (1, 0), (0, 1)]);
}

#[test]
fn spot_never_leaves_the_canvas() {
    let mut canvas = Canvas::new(10, 10, WHITE);
    canvas.draw_spot(9, 9, &settings(768, RED), Length::from_pixels(10));
    let got = painted(&canvas);
    let mut expected = Vec::new();
    for y in 0..10u32 {
        for x in 0..10u32 {
            let dx = x as i64 - 9;
            let dy = y as i64 - 9;
            if dx * dx + dy * dy <= 9 {
                expected.push((x, y));
            }
        }
    }
    assert_eq!(got, expected);

    let mut far = Canvas::new(10, 10, WHITE);
    far.draw_spot(50, 3, &settings(768, RED), Length::from_pixels(10));
    assert!(painted(&far).is_empty());
}

#[test]
fn spot_radius_scales_with_canvas_width() {
    let mut canvas = Canvas::new(20, 20, WHITE);
    // radius 1.0 on a canvas 20 pixels wide spanning 10.0 units: two pixels.
    canvas.draw_spot(10, 10, &settings(256, RED), Length::from_pixels(10));
    assert_eq!(canvas.get_color_at(12, 10), Some(RED));
    assert_eq!(canvas.get_color_at(10, 8), Some(RED));
    assert_eq!(canvas.get_color_at(12, 12), Some(WHITE));
    assert_eq!(canvas.get_color_at(13, 10), Some(WHITE));
}

#[test]
fn empty_canvas_spot_is_a_no_op() {
    let mut canvas = Canvas::new(0, 5, WHITE);
    canvas.draw_spot(0, 0, &settings(256, RED), Length::from_pixels(1));
    assert_eq!(canvas.get_color_at(0, 0), None);
}

#[test]
fn hard_stroke_paints_its_band() {
    let mut canvas = Canvas::new(20, 20, WHITE);
    // radius 2.0 on a canvas 20 pixels wide spanning 20.0 units: two pixels.
    canvas.draw_thick_line(3, 10, 15, 10, &settings(512, RED), Length::from_pixels(20));
    let mut expected = Vec::new();
    for y in 8..=12u32 {
        for x in 3..=15u32 {
            expected.push((x, y));
        }
    }
    assert_eq!(painted(&canvas), expected);
}

#[test]
fn hard_stroke_at_the_edge_drops_outside_pixels() {
    let mut canvas = Canvas::new(10, 10, WHITE);
    canvas.draw_thick_line(0, 0, 9, 0, &settings(512, RED), Length::from_pixels(10));
    let got = painted(&canvas);
    assert_eq!(got.len(), 30);
    assert!(got.iter().all(|&(_, y)| y <= 2));
}

#[test]
fn antialiased_stroke_sets_alpha_from_coverage() {
    let mut canvas = Canvas::new(20, 20, WHITE);
    canvas.draw_thick_line_antialias(3, 10, 15, 10, &settings(512, RED), Length::from_pixels(20));
    assert_eq!(canvas.get_color_at(5, 10), Some(RED));
    assert_eq!(canvas.get_color_at(5, 9), Some(RED));
    assert_eq!(canvas.get_color_at(5, 8), Some(RED.with_alpha(128)));
    assert_eq!(canvas.get_color_at(5, 12), Some(RED.with_alpha(128)));
    assert_eq!(canvas.get_color_at(5, 7), Some(WHITE));
    assert_eq!(canvas.get_color_at(5, 13), Some(WHITE));
}

#[test]
fn antialiased_strokes_replace_alpha() {
    let mut canvas = Canvas::new(20, 20, WHITE);
    let brush = settings(512, RED);
    let scale = Length::from_pixels(20);
    canvas.draw_thick_line_antialias(3, 10, 15, 10, &brush, scale);
    assert_eq!(canvas.get_color_at(5, 8), Some(RED.with_alpha(128)));
    canvas.draw_thick_line_antialias(3, 8, 15, 8, &brush, scale);
    assert_eq!(canvas.get_color_at(5, 8), Some(RED));
    canvas.draw_thick_line_antialias(3, 10, 15, 10, &brush, scale);
    assert_eq!(canvas.get_color_at(5, 8), Some(RED.with_alpha(128)));
}
