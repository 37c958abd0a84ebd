//! What is painted: the frame of cells, the crossword, and the welcome and
//! win pictures.

pub mod crossword;
pub mod frame;
pub mod render;
pub mod welcome_frame;
pub mod win_frame;
