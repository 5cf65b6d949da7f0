use vstd::prelude::*;

verus! {

/// One of the four semantic colour levels; a palette gives each its pixel value.
#[derive(Clone, Copy, Debug, PartialEq, Eq, Structural)]
pub enum Color {
    Darkest,
    Dark,
    Light,
    Lightest,
}

/// Maps a semantic colour to a packed `0xRRGGBB` pixel value.
pub trait Palette {
    /// The pixel value that this palette gives to `color`.
    spec fn spec_color(&self, color: Color) -> u32;

    fn color(&self, color: Color) -> (r: u32)
        ensures
            r == self.spec_color(color),
    ;
}

/// Four shades of red on black.
#[derive(Clone, Copy, Debug)]
pub struct VirtualBoyPalette;

impl Palette for VirtualBoyPalette {
    open spec fn spec_color(&self, color: Color) -> u32 {
        match color {
            Color::Darkest => 0x000000,
            Color::Dark => 0x550000,
            Color::Light => 0xaa0000,
            Color::Lightest => 0xff0000,
        }
    }

    fn color(&self, color: Color) -> (r: u32) {
        match color {
            Color::Darkest => 0x000000,
            Color::Dark => 0x550000,
            Color::Light => 0xaa0000,
            Color::Lightest => 0xff0000,
        }
    }
}

} // verus!
