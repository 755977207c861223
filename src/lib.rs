//! A minesweeper board: mine placement with neighbour counts, cascading
//! reveal, marking and win/loss detection, all verified.
pub mod tile;
pub mod grid;
pub mod config;
pub mod board;
pub mod uncover;
pub mod placement;
pub mod command;

pub use tile::{Tile, TileType, MarkType, GameState, Glyph};
pub use config::{GameConfig, ConfigError, Difficulty};
pub use board::TileArray;
pub use command::Command;
