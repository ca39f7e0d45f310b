//! The start-up configuration the surrounding application hands the
//! engine: board dimensions, rendering glyphs, whether to randomize, and
//! an optional save to load.

use vstd::prelude::*;

verus! {

/// What the application was asked to run: a board size, the two cell
/// glyphs, whether the board starts randomized, and the name of a saved
/// board to load instead, if any.
pub struct Config {
    pub board_width: usize,
    pub board_height: usize,
    pub dead_cell: char,
    pub alive_cell: char,
    pub is_rand: bool,
    pub save_name: Option<String>,
}

} // verus!
