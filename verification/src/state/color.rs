//! Tile colours.

use vstd::prelude::*;

verus! {

/// The colour of one cell. `Empty` marks a cell that holds no tile; every
/// other variant is the colour of one of the seven shapes.
#[derive(Clone, Copy, Debug, PartialEq, Eq, Structural)]
pub enum Color {
    Empty,
    Cyan,
    Yellow,
    Purple,
    Green,
    Red,
    Blue,
    Orange,
}

impl Color {
    /// Whether a cell of this colour counts as unoccupied.
    pub fn is_empty(self) -> (r: bool)
        ensures
            r == (self == Color::Empty),
    {
        self == Color::Empty
    }
}

impl Default for Color {
    fn default() -> (c: Color)
        ensures
            c == Color::Empty,
    {
        Color::Empty
    }
}

} // verus!
