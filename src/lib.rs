//! Scan conversion of lines and thick strokes onto a pixel canvas: Bresenham lines
//! whose error term can be seeded, thick strokes by Murphy's algorithm, antialiased
//! strokes by Gupta-Sproull coverage, and a canvas that paints spots and strokes
//! with a radius scaled to its size.

pub mod antialias_thick_line;
pub mod cross_section;
pub mod objects;
pub mod paint;
pub mod paint_input;
pub mod single_line;
pub mod thick_line;

pub use antialias_thick_line::{draw_antialiased_thick_line, Coverage, FULL_COVERAGE};
pub use objects::{nearest_ratio_exec, Axis, Length, Point, Sign, COORD_LIMIT, SUBPIXELS};
pub use paint::{Canvas, Colour, OutOfBounds, PaintSettings};
pub use paint_input::{PaintAction, PaintInput, PointerEvent};
pub use single_line::{LineIterator, PointInfo};
pub use thick_line::ThickLine;
