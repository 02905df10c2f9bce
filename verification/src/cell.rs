//! One square of the grid.

use vstd::prelude::*;

verus! {

/// The content value that marks a mine; every other content is a neighbour count.
pub const MINE: u8 = 9;

/// A grid square: what lies under it and whether the player has opened or flagged it.
#[derive(Clone, Copy, Debug, PartialEq, Eq)]
pub struct Cell {
    pub content: u8,
    pub opened: bool,
    pub flagged: bool,
}

impl Cell {
    /// A covered, unflagged square holding `content`.
    pub fn new(content: u8) -> (cell: Self)
        ensures
            cell == (Cell { content, opened: false, flagged: false }),
    {
        Self { content, opened: false, flagged: false }
    }

    /// The neighbour count under the square, or `MINE`.
    pub fn content(&self) -> (content: u8)
        ensures
            content == self.content,
    {
        self.content
    }

    /// Whether the square has been revealed.
    pub fn is_opened(&self) -> (opened: bool)
        ensures
            opened == self.opened,
    {
        self.opened
    }

    /// Whether the square carries a flag.
    pub fn is_flagged(&self) -> (flagged: bool)
        ensures
            flagged == self.flagged,
    {
        self.flagged
    }

    /// Whether a mine lies under the square.
    pub fn is_mine(&self) -> (mine: bool)
        ensures
            mine == (self.content == MINE),
    {
        self.content == MINE
    }

    /// The state every square has on a fresh board.
    pub open spec fn blank() -> Cell {
        Cell { content: 0, opened: false, flagged: false }
    }
}

impl Default for Cell {
    fn default() -> (cell: Self)
        ensures
            cell == Cell::blank(),
    {
        Self::new(0)
    }
}

} // verus!
