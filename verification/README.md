# oxidie_checkers

A checkers engine on 64-bit bitboards, verified with Verus. It speaks a small
text protocol on standard input: `move d4e3 f2d4f6`, `go depth 6`,
`allmoves`, `movenum 41 32`, `isready`, `endgame`.

## Layout

- `src/` — the verified library.
  - `squares.rs`: square `s` is bit `63 - s`; bitboards as sets of squares.
  - `generation.rs`: the step and jump masks of each piece class and square.
  - `board.rs`: the position, its model (`BoardView`), moves as lists of
    steps, and the rule that moves a piece (promotion, taking the jumped piece).
  - `movegen.rs`: quiet moves, capture chains and legal moves with forced
    taking, each stated as a spec function over the model.
  - `notation.rs`: parsing moves from coordinates, writing them out, and
    drawing the board.
  - `layout.rs`: reading a position from its row-by-row layout text.
  - `algo.rs`: evaluation, quiescence search, negamax with a transposition
    table, and the choice of the best move at the root.
  - `minimax.rs`: the depth-limited game value, and the law that the
    search bounds it as a fail-soft alpha-beta search.
  - `transposition.rs`: the Zobrist-keyed table of searched values.
  - `utils.rs`: coordinates and bit helpers.
- `tests/` — tests run against the compiled library.
- `app/` — the command loop, printing and the allocator.
