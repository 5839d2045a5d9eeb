//! Colours, as layout hands them to the painter.

use vstd::prelude::*;

verus! {

/// A colour: red, green, blue and opacity, each from 0 to 255.
#[derive(Clone, Copy, Debug, PartialEq, Eq, Structural)]
pub struct Color {
    pub r: u8,
    pub g: u8,
    pub b: u8,
    pub a: u8,
}

impl Color {
    /// Whether nothing of the colour shows: its opacity is zero.
    pub open spec fn is_transparent_spec(self) -> bool {
        self.a == 0
    }

    pub fn rgba(r: u8, g: u8, b: u8, a: u8) -> (c: Color)
        ensures
            c == (Color { r, g, b, a }),
    {
        Color { r, g, b, a }
    }

    /// Opaque white, the colour of a page that sets none.
    pub fn white() -> (c: Color)
        ensures
            c == (Color { r: 255, g: 255, b: 255, a: 255 }),
    {
        Color { r: 255, g: 255, b: 255, a: 255 }
    }

    pub fn transparent() -> (c: Color)
        ensures
            c == (Color { r: 0, g: 0, b: 0, a: 0 }),
            c.is_transparent_spec(),
    {
        Color { r: 0, g: 0, b: 0, a: 0 }
    }

    pub fn is_transparent(&self) -> (b: bool)
        ensures
            b == self.is_transparent_spec(),
    {
        self.a == 0
    }
}

} // verus!
