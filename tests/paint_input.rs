use raster::{Canvas, Colour, PaintAction, PaintInput, PointerEvent};

#[test]
fn press_paints_spot_then_lines() {
    let mut input = PaintInput::default();
    assert_eq!(input.on_input(PointerEvent::Pressed(Some((3, 4)))), PaintAction::Spot(3, 4));
    assert_eq!(input.on_input(PointerEvent::Pressed(Some((5, 6)))), PaintAction::Line(3, 4, 5, 6));
    assert_eq!(input.on_input(PointerEvent::Pressed(Some((7, 6)))), PaintAction::Line(5, 6, 7, 6));
    assert_eq!(input.last_input_location, Some((7, 6)));
    assert!(input.mouse_down);
}

#[test]
fn release_ends_the_press() {
    let mut input = PaintInput::default();
    input.on_input(PointerEvent::Pressed(Some((1, 1))));
    assert_eq!(input.on_input(PointerEvent::Released), PaintAction::Nothing);
    assert!(!input.mouse_down);
    assert_eq!(input.last_input_location, Some((1, 1)));
    assert_eq!(input.on_input(PointerEvent::Pressed(Some((2, 2)))), PaintAction::Spot(2, 2));
}

#[test]
fn missed_press_changes_nothing() {
    let mut input = PaintInput::default();
    assert_eq!(input.on_input(PointerEvent::Pressed(None)), PaintAction::Nothing);
    assert_eq!(input, PaintInput::default());
    input.on_input(PointerEvent::Pressed(Some((4, 4))));
    let before = input;
    assert_eq!(input.on_input(PointerEvent::Pressed(None)), PaintAction::Nothing);
    assert_eq!(input, before);
    assert_eq!(input.on_input(PointerEvent::Pressed(Some((6, 4)))), PaintAction::Line(4, 4, 6, 4));
}

#[test]
fn clear_makes_canvas_transparent() {
    let mut canvas = Canvas::new(3, 2, Colour { r: 9, g: 9, b: 9, a: 255 });
    canvas.clear();
    for y in 0..2 {
        for x in 0..3 {
            assert_eq!(canvas.get_color_at(x, y), Some(Colour { r: 0, g: 0, b: 0, a: 0 }));
        }
    }
}
