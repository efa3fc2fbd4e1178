//! One cell of the board.
use vstd::prelude::*;

use crate::mino::Color;

verus! {

/// A cell of the board: whether it is occupied, how it is drawn, and whether
/// it belongs to a completed line that is about to disappear.
#[derive(Debug, Clone, Copy, PartialEq, Eq, Structural)]
pub struct Block {
    pub filled: bool,
    pub color: Color,
    pub clearing: bool,
}

impl Block {
    /// A cell that is not being cleared.
    pub fn new(filled: bool, color: Color) -> (r: Block)
        ensures
            r == (Block { filled, color, clearing: false }),
    {
        Block { filled, color, clearing: false }
    }

    /// Whether the cell is occupied.
    pub fn is_filled(&self) -> (r: bool)
        ensures
            r == self.filled,
    {
        self.filled
    }

    /// How the cell is drawn.
    pub fn get_color(&self) -> (r: Color)
        ensures
            r == self.color,
    {
        self.color
    }

    /// Whether the cell belongs to a completed line about to disappear.
    pub fn is_clearing(&self) -> (r: bool)
        ensures
            r == self.clearing,
    {
        self.clearing
    }
}

} // verus!
