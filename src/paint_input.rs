//! The pointer state of a painting session, and what each pointer event paints.

use vstd::prelude::*;

verus! {

/// What the pointer did since the last update.
#[derive(Debug, Copy, Clone, PartialEq, Eq)]
pub enum PointerEvent {
    /// The button is held; the pointer hits the canvas at this pixel, if anywhere.
    Pressed(Option<(usize, usize)>),
    /// The button is up.
    Released,
}

/// What to paint in answer to a pointer event.
#[derive(Debug, Copy, Clone, PartialEq, Eq, Structural)]
pub enum PaintAction {
    Nothing,
    /// A spot at a pixel: the first touch of a press.
    Spot(usize, usize),
    /// A stroke from the last pixel touched to the new one.
    Line(usize, usize, usize, usize),
}

/// The pointer state between events: the last pixel painted and whether the
/// button has been held since.
#[derive(Debug, Copy, Clone, PartialEq, Eq)]
pub struct PaintInput {
    pub last_input_location: Option<(usize, usize)>,
    pub mouse_down: bool,
}

impl Default for PaintInput {
    /// No pixel painted yet, button up.
    fn default() -> (r: PaintInput)
        ensures
            r.last_input_location is None,
            !r.mouse_down,
    {
        PaintInput { last_input_location: None, mouse_down: false }
    }
}

impl PaintInput {
    /// Takes one pointer event: a press that hits the canvas paints a spot when it
    /// begins and a stroke from the last pixel while it lasts, and is remembered; a
    /// press that misses changes nothing; a release ends the press.
    pub fn on_input(&mut self, event: PointerEvent) -> (r: PaintAction)
        ensures
            match event {
                PointerEvent::Released => {
                    &&& r == PaintAction::Nothing
                    &&& !final(self).mouse_down
                    &&& final(self).last_input_location == old(self).last_input_location
                },
                PointerEvent::Pressed(None) => {
                    &&& r == PaintAction::Nothing
                    &&& *final(self) == *old(self)
                },
                PointerEvent::Pressed(Some((x, y))) => {
                    &&& final(self).last_input_location == Some((x, y))
                    &&& final(self).mouse_down
                    &&& r == if !old(self).mouse_down {
                        PaintAction::Spot(x, y)
                    } else {
                        match old(self).last_input_location {
                            Some((lx, ly)) => PaintAction::Line(lx, ly, x, y),
                            None => PaintAction::Nothing,
                        }
                    }
                },
            },
    {
        match event {
            PointerEvent::Released => {
                self.mouse_down = false;
                PaintAction::Nothing
            },
            PointerEvent::Pressed(None) => PaintAction::Nothing,
            PointerEvent::Pressed(Some((x, y))) => {
                let action = if !self.mouse_down {
                    PaintAction::Spot(x, y)
                } else {
                    match self.last_input_location {
                        Some((lx, ly)) => PaintAction::Line(lx, ly, x, y),
                        None => PaintAction::Nothing,
                    }
                };
                self.last_input_location = Some((x, y));
                self.mouse_down = true;
                action
            },
        }
    }
}

} // verus!
