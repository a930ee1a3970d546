# chessr

A chess engine library verified with Verus: board representation with bitboards and
a mailbox, FEN reading, legal move generation, make/undo with Zobrist hashing, perft,
evaluation, move ordering, a transposition table, quiescence and alpha-beta search,
and the decisions of a UCI front end.

Layout:

- `src/` is the verified library. Its contracts are stated over the board's cells
  (`Board::cells`), the state fields and spec functions such as `gen_move` (the legal
  moves), `perft_spec`, `eval_spec`, `q_value` and the negamax value `nm_value`. Laws that relate
  several functions are public proof functions named `law_*`.
- Move lists are `Vec<Move>`. A list of fixed capacity would panic when a position
  generated more moves than it holds, and no bound on the number of generated moves is
  proved here, so the verified generators push into a growable list.
- `tests/` runs the library on concrete positions.
- `app/` is the command-line program: the UCI loop over standard input and output,
  benchmarks, perft output and the search for magic numbers. It calls the library and
  holds no chess logic of its own.

The clock (`Instant::now`, `Instant::elapsed`, `Duration::as_millis`) and the
conversion of checked ASCII bytes to a `String` are the only calls whose contracts
are trusted.
