//! A screen which shows one solid colour.

use vstd::prelude::*;
use crate::color::Color;

verus! {

/// A screen filled with a single colour.
#[derive(Clone, Copy, Debug)]
pub struct Solid {
    color: Color,
}

impl Solid {
    /// The colour this screen clears to.
    pub closed spec fn view(&self) -> Color {
        self.color
    }

    /// Makes a screen which clears to `color`.
    pub fn new(color: Color) -> (s: Solid)
        ensures
            s@ == color,
    {
        Solid { color }
    }

    /// The colour this screen clears to.
    pub fn color(&self) -> (c: Color)
        ensures
            c == self@,
    {
        self.color
    }
}

} // verus!
