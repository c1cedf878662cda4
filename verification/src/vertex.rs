use crate::color::Color;
use crate::model::PASS;
use vstd::prelude::*;

verus! {

/// A stone that is placed on the board.
#[derive(Clone, Copy, Debug, PartialEq, Eq, Structural)]
pub struct Placement {
    pub color: Color,
    pub x: u8,
    pub y: u8,
}

/// The `x` coordinate of the given move.
pub open spec fn x_spec(index: int) -> int {
    index % 19
}

/// The `y` coordinate of the given move.
pub open spec fn y_spec(index: int) -> int {
    index / 19
}

/// Returns the `x` coordinate of the given move.
pub fn x_of(index: usize) -> (r: u8)
    requires
        index < PASS,
    ensures
        r == x_spec(index as int),
        r < 19,
{
    (index % 19) as u8
}

/// Returns the `y` coordinate of the given move.
pub fn y_of(index: usize) -> (r: u8)
    requires
        index < PASS,
    ensures
        r == y_spec(index as int),
        r < 19,
{
    (index / 19) as u8
}

/// A move is determined by its coordinates.
pub proof fn lemma_coordinates(index: int)
    requires
        0 <= index < PASS,
    ensures
        0 <= x_spec(index) < 19,
        0 <= y_spec(index) < 19,
        index == 19 * y_spec(index) + x_spec(index),
{
}

} // verus!
