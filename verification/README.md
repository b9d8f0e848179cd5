# kopyto

A chess engine that speaks the Universal Chess Interface, written in Verus:
the board, the move generator, the hashing, the transposition table, the
evaluation, the search, the opening book and the reading of interface
requests are a verified library; a small program around it reads requests
and prints answers.

## Layout

* `src/types` — bitboards, squares, sides, pieces and packed moves, with
  the text of squares and moves (`e2e4`) and its reading back.
* `src/board` — the board, its well-formedness, making and taking back
  moves and passed turns, FEN writing and reading, attack masks of single
  pieces, sliding rays and the magic-bitboard tables of the sliders, whose
  every entry is proved to hold the attacks of its occupancies.
* `src/moves_generation` — move generation, attack maps and check detection,
  move ordering, the move list and move path counting (perft).
* `src/transpositions` — Zobrist keys and the transposition table.
* `src/search` — the hand-crafted evaluation, the piece-square weights,
  draw checks, the search limits, the opening book and the alpha-beta
  search.
* `src/uci` — reading interface requests: commands, `position` with its
  move list, `setoption`, the limits of `go`, and the numbers of the
  reports.
* `app/main.rs` — the program: the request loop over standard input and
  the printing of answers.
* `tests` — the engine's tests.

## Main guarantees

* Taking back a move (or a passed turn) restores the position exactly.
* Every generated move is one that `make_move` accepts; a step of the king
  never leaves it on an attacked square, and castling neither starts from,
  crosses nor lands on one. Every safe step of the king is generated.
* The FEN text of a board reads back to the same position.
* A value stored in the transposition table is read back from its slot, and
  other slots are untouched.
* Counting move paths and searching leave the board as it was; the searched
  move is one the position accepts, or the empty move, which never comes
  while the king has a safe step.
* A `position` request plays its move list on the position it names, move
  by move, and says which move it refused.
