# c4_solver

A Connect Four engine written in Verus: the board rules and the search are
verified, the terminal game and the REST API around them are plain Rust.

## Layout

- `src/bits.rs`: bit-level facts about the 64-bit board words, and the proof
  that the shift-and-mask win test finds exactly the four-in-a-row lines.
- `src/bitboard.rs`: the `Bitboard` (two masks, the player to move, the move
  count), its view as a map from cells to players, moves, win and draw tests,
  and the text picture parser `from_ascii`.
- `src/solver.rs`: the static evaluation, the transposition table, negamax
  with alpha-beta pruning (proved to keep the fail-soft contract with respect
  to the minimax value), and iterative deepening under a time limit. The clock
  is read every 1024 nodes, so the search of depth 1 always completes; with no
  deadline (`best_move_until(board, depth, None)`) the move is exactly the
  choice of the deepest search, ties going to the table's move and then to the
  center-first order. `iterative_deepening` also reports the depth reached,
  whether the clock stopped the next depth (only ever at a clock check), and the
  node count.
- `src/text.rs`: lines, tokens, trimming and number reading on characters.
- `src/player.rs`, `src/game.rs`, `src/menu.rs`, `src/display.rs`,
  `src/service.rs`: controllers, the rules of a turn, menu answers, player
  styles, and the checks of an API request.
- `app/`: the terminal game (`c4_solver [--timeout <seconds>]`) and the REST
  API server (`c4_solver api`).
- `tests/`: tests of the library.
