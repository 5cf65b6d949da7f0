//! A small immediate-mode GUI toolkit: an input tracker that turns raw pointer
//! samples into press/release edges, widgets that hit-test against it, and a
//! painter that rasterises rectangles, lines and bitmap text into a pixel buffer.
pub mod canvas;
pub mod color;
pub mod context;
pub mod font;
pub mod laws;
pub mod layout;
pub mod line;
pub mod painter;

pub use color::{Color, Palette, VirtualBoyPalette};
pub use context::{Context, Interaction};
pub use font::{Font, FONT_CHAR_HEIGHT, FONT_CHAR_WIDTH};
pub use layout::VerticalStackLayout;
pub use painter::Painter;
