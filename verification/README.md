# crossword

A crossword game for the terminal. The player picks a clue by its number,
types the answer and presses Enter; the game ends when every clue is guessed
or on Esc.

## Layout

- `src/` — the verified library (Verus):
  - `sqllite_conection.rs`: the clue store, loading rows, numbering the clues
    in a random order and taking the first ones in that order;
  - `render/crossword.rs`: laying keywords out on the board so that they never
    collide and each one after the first crosses an earlier one on a common
    letter, the player's input and guessed clues, and painting the board;
  - `render/render.rs`: which cells of a frame are printed;
  - `render/frame.rs`, `render/welcome_frame.rs`, `render/win_frame.rs`: the
    frame of cells and the two pictures;
  - `game.rs`: the decisions between terminal events (render steps, choosing
    a clue, keys while an answer is typed, winning, preparing a crossword);
  - `text.rs`: string and number helpers and the calls into `rand` and std.
- `app/main.rs` — the program: command line, sounds, the SQLite database, the
  render thread and the keyboard loop.
- `tests/` — tests of the library.
