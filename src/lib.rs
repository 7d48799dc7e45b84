//! A terminal minesweeper engine: mine placement, adjacency counts, flood-fill
//! uncovering, flag bookkeeping and win/loss detection, each with a contract,
//! together with the parsing of what the player types.

pub mod board;
pub mod game;
pub mod grid;
pub mod input;
pub mod render;

pub use board::{Board, Cell, Coord};
pub use game::{difficulty_lookup, random, Difficulty, Game};
pub use input::{char_at, check_choice, parse_coords, parse_isize, parse_usize, read_num, str_len, substring, CoordError, NumEntry};
