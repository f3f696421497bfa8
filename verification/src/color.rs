//! Plain colour containers.

use vstd::prelude::*;

verus! {

/// An opaque colour with eight bits per channel.
#[derive(Clone, Copy, Debug, PartialEq, Eq, Structural)]
pub struct Color {
    pub r: u8,
    pub g: u8,
    pub b: u8,
}

/// A colour with an alpha channel, eight bits per channel.
#[derive(Clone, Copy, Debug, PartialEq, Eq, Structural)]
pub struct AlphaColor {
    pub r: u8,
    pub g: u8,
    pub b: u8,
    pub a: u8,
}

impl Color {
    /// Builds a colour from its three channels.
    pub fn rgb(r: u8, g: u8, b: u8) -> (c: Color)
        ensures
            c == (Color { r, g, b }),
    {
        Color { r, g, b }
    }

    /// The same colour with the given alpha.
    pub fn with_alpha(&self, a: u8) -> (c: AlphaColor)
        ensures
            c == (AlphaColor { r: self.r, g: self.g, b: self.b, a }),
    {
        AlphaColor { r: self.r, g: self.g, b: self.b, a }
    }
}

} // verus!
