use vstd::prelude::*;

verus! {

/// An 8-bit-per-channel RGB color, copied freely.
#[derive(Clone, Copy, PartialEq, Eq, Structural, Debug)]
pub struct Color {
    pub r: u8,
    pub g: u8,
    pub b: u8,
}

/// The background color that a sample resolves to when it hits nothing.
pub open spec fn background() -> Color {
    Color { r: 255, g: 255, b: 255 }
}

impl Color {
    /// Builds a color from its three channels.
    pub fn new(r: u8, g: u8, b: u8) -> (c: Color)
        ensures
            c == (Color { r, g, b }),
    {
        Color { r, g, b }
    }

    /// The background color, white.
    pub fn background() -> (c: Color)
        ensures
            c == background(),
    {
        Color { r: 255, g: 255, b: 255 }
    }
}

} // verus!
