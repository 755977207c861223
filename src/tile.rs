//! A single cell of the board and the small enums that describe it.
use vstd::prelude::*;

verus! {

/// What a cell holds: a mine, or a safe cell with the number of mines
/// among its (up to eight) neighbours.
#[derive(Clone, Copy, Debug, PartialEq, Eq, Structural)]
pub enum TileType {
    Safe(u8),
    Mine,
}

/// The player's annotation on a cell.
#[derive(Clone, Copy, Debug, PartialEq, Eq, Structural)]
pub enum MarkType {
    No,
    Yes,
    Uncertain,
}

/// Where the game stands.
#[derive(Clone, Copy, Debug, PartialEq, Eq, Structural)]
pub enum GameState {
    Play,
    Win,
    Lose,
}

/// One grid position: its content, whether it is uncovered, and its mark.
#[derive(Clone, Copy, Debug, PartialEq, Eq, Structural)]
pub struct Tile {
    pub kind: TileType,
    pub uncovered: bool,
    pub marked: MarkType,
}

/// What a display shows for one cell.
#[derive(Clone, Copy, Debug, PartialEq, Eq, Structural)]
pub enum Glyph {
    /// Uncovered, safe, with no neighbouring mine.
    Blank,
    /// Uncovered, safe, with this many neighbouring mines (1 to 8).
    Number(u8),
    /// Uncovered mine.
    Mine,
    /// Covered and unmarked.
    Hidden,
    /// Covered and flagged.
    Flag,
    /// Covered and marked uncertain.
    Question,
}

/// The mark that follows `m` in the cycle none, flagged, uncertain, none.
pub open spec fn next_mark(m: MarkType) -> MarkType {
    match m {
        MarkType::No => MarkType::Yes,
        MarkType::Yes => MarkType::Uncertain,
        MarkType::Uncertain => MarkType::No,
    }
}

/// Cycling a mark three times gives the mark back.
pub proof fn lemma_mark_cycle(m: MarkType)
    ensures
        next_mark(next_mark(next_mark(m))) == m,
{
}

impl MarkType {
    /// The next mark in the cycle none, flagged, uncertain, none.
    pub fn next(self) -> (r: MarkType)
        ensures
            r == next_mark(self),
    {
        match self {
            MarkType::No => MarkType::Yes,
            MarkType::Yes => MarkType::Uncertain,
            MarkType::Uncertain => MarkType::No,
        }
    }
}

impl Tile {
    pub open spec fn new_spec(kind: TileType) -> Tile {
        Tile { kind: kind, uncovered: false, marked: MarkType::No }
    }

    /// A covered, unmarked cell holding `kind`.
    pub fn new(kind: TileType) -> (r: Tile)
        ensures
            r == Tile::new_spec(kind),
    {
        Tile { kind: kind, uncovered: false, marked: MarkType::No }
    }

    /// What a display shows for this cell: the content once uncovered,
    /// the mark while covered.
    pub fn glyph(&self) -> (r: Glyph)
        ensures
            self.uncovered ==> r == match self.kind {
                TileType::Safe(0) => Glyph::Blank,
                TileType::Safe(n) => Glyph::Number(n),
                TileType::Mine => Glyph::Mine,
            },
            !self.uncovered ==> r == match self.marked {
                MarkType::No => Glyph::Hidden,
                MarkType::Yes => Glyph::Flag,
                MarkType::Uncertain => Glyph::Question,
            },
    {
        if self.uncovered {
            match self.kind {
                TileType::Safe(n) => if n == 0 { Glyph::Blank } else { Glyph::Number(n) },
                TileType::Mine => Glyph::Mine,
            }
        } else {
            match self.marked {
                MarkType::No => Glyph::Hidden,
                MarkType::Yes => Glyph::Flag,
                MarkType::Uncertain => Glyph::Question,
            }
        }
    }
}

} // verus!
