//! What the compiler notes for each cached light or line it has resolved.

use vstd::prelude::*;

verus! {

/// What a cached light or line is drawn with.
#[derive(Clone, Copy, Debug, PartialEq, Eq, Structural)]
pub enum Asm {
    /// Where the mesh of a rectangular light lies, and the scale to draw it
    /// at.
    RectLight(usize, u32),
    /// Where the mesh of a spotlight lies, and the scale to draw it at.
    Spotlight(usize, u32),
    /// Where the mesh of a line lies.
    Line(usize),
}

} // verus!
