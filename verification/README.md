# sudoku_solver

A sudoku solver whose logic is verified with Verus.

- `src/` is the verified library:
  - `exact_cover` models sudoku as an exact-cover problem (729 placements, 324
    constraints) and counts its solutions with Dancing Links (`exact_cover/dlx.rs`), up
    to a cap; `covers.rs` holds the mathematical model of exact covers.
  - `sudoku_game` holds the game, its grid and cells, the checks that narrow the
    candidates after each entry, and the snapshot a window shows.
  - `commands` reads the commands typed in the terminal mode and carries out the
    changes a window asks for.
  - `test_harness` parses the text of puzzle files, judges whether their clues solve the
    puzzle, and orders the results.
  - `text`, `tokens` and `bits` hold decimal text, scanning and bit-mask helpers.
- `app/` is the program around it: the terminal mode (`--headless`), the puzzle-file
  runner (`--test-runner [dir]`), the colour printing of the grid, and a JSON bridge that
  serves the desktop window's requests one per line on standard input. The window
  itself is drawn by Tauri, which is not linked in this build.
- `tests/` runs the library on concrete cases.
