//! The three numbers a board is built from, and the preset difficulties.
use vstd::prelude::*;

verus! {

/// Width, height and number of mines of a board.
#[derive(Clone, Copy, Debug, PartialEq, Eq, Structural)]
pub struct GameConfig {
    pub width: usize,
    pub height: usize,
    pub mines: usize,
}

/// Why a configuration cannot make a board.
#[derive(Clone, Copy, Debug, PartialEq, Eq, Structural)]
pub enum ConfigError {
    /// The width or the height is zero.
    EmptyBoard,
    /// The number of cells does not fit in a `usize`.
    TooLarge,
    /// There are more mines than cells.
    TooManyMines,
}

/// The preset board sizes.
#[derive(Clone, Copy, Debug, PartialEq, Eq, Structural)]
pub enum Difficulty {
    Easy,
    Medium,
    Hard,
}

impl GameConfig {
    /// A configuration a board can be built from: both sides positive, the
    /// cell count representable, and no more mines than cells.
    pub open spec fn valid(&self) -> bool {
        &&& self.width > 0
        &&& self.height > 0
        &&& self.width * self.height <= usize::MAX
        &&& self.mines <= self.width * self.height
    }

    /// Checks the three numbers and builds the configuration.
    pub fn new(width: usize, height: usize, mines: usize) -> (r: Result<GameConfig, ConfigError>)
        ensures
            width == 0 || height == 0 <==> r == Err::<GameConfig, ConfigError>(ConfigError::EmptyBoard),
            width > 0 && height > 0 && width * height > usize::MAX
                <==> r == Err::<GameConfig, ConfigError>(ConfigError::TooLarge),
            width > 0 && height > 0 && width * height <= usize::MAX && mines > width * height
                <==> r == Err::<GameConfig, ConfigError>(ConfigError::TooManyMines),
            r is Ok <==> width > 0 && height > 0 && width * height <= usize::MAX && mines <= width * height,
            r is Ok ==> r->Ok_0 == (GameConfig { width, height, mines }) && r->Ok_0.valid(),
    {
        if width == 0 || height == 0 {
            return Err(ConfigError::EmptyBoard);
        }
        match width.checked_mul(height) {
            None => Err(ConfigError::TooLarge),
            Some(cells) => {
                if mines > cells {
                    Err(ConfigError::TooManyMines)
                } else {
                    Ok(GameConfig { width, height, mines })
                }
            },
        }
    }
}

impl Difficulty {
    /// The board of a preset: easy 8 by 8 with 10 mines, medium 16 by 16
    /// with 40, hard 30 by 16 with 99.
    pub fn config(self) -> (r: GameConfig)
        ensures
            r.valid(),
            self == Difficulty::Easy ==> r == (GameConfig { width: 8, height: 8, mines: 10 }),
            self == Difficulty::Medium ==> r == (GameConfig { width: 16, height: 16, mines: 40 }),
            self == Difficulty::Hard ==> r == (GameConfig { width: 30, height: 16, mines: 99 }),
    {
        match self {
            Difficulty::Easy => GameConfig { width: 8, height: 8, mines: 10 },
            Difficulty::Medium => GameConfig { width: 16, height: 16, mines: 40 },
            Difficulty::Hard => GameConfig { width: 30, height: 16, mines: 99 },
        }
    }
}

} // verus!
