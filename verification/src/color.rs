use vstd::prelude::*;

verus! {

/// The colour of a player, or of a stone.
#[derive(Clone, Copy, Debug, PartialEq, Eq, Structural)]
pub enum Color {
    Black,
    White,
}

impl Color {
    /// The other player.
    pub open spec fn opposite_spec(self) -> Color {
        match self {
            Color::Black => Color::White,
            Color::White => Color::Black,
        }
    }

    /// Returns the other player.
    pub fn opposite(self) -> (r: Color)
        ensures
            r == self.opposite_spec(),
    {
        match self {
            Color::Black => Color::White,
            Color::White => Color::Black,
        }
    }
}

} // verus!
