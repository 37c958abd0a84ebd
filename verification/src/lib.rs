//! A terminal crossword game: the clue store, the crossword layout and its
//! rules, the frame that is painted on the terminal and the game's decisions.

pub mod game;
pub mod render;
pub mod respose_to_user_and_instructions;
pub mod sqllite_conection;
pub mod text;

use vstd::prelude::*;

verus! {

/// Number of the last column of a frame (frames have `COLUMS + 1` columns).
pub const COLUMS: u8 = 30;

/// Number of the last row of a full frame.
pub const ROWS: u8 = 40;

/// Width, in printable characters, of the terminal window.
pub const WINDOW_SIZE_X: u8 = 60;

/// Height, in rows, of the terminal window.
pub const WINDOW_SIZE_Y: u8 = 40;

} // verus!
