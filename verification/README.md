# engine

A bitboard chess engine whose logic is verified with Verus.

`src/` is the library. Its functions carry contracts that Verus proves; the only one taken
on trust is a small wrapper around the standard library's `String::push`, whose contract
says what its documentation states.

- `bitboard`, `constants`, `types`: bitboards as sets of squares, the board constants, moves
  and move lists.
- `attacks`, `magics`, `magic_tables`: knight and king attack tables, sliding-piece rays,
  blocker masks, the magic-number search, and the magic lookup tables built from magic
  numbers (`init` searches a number for every square and builds them); for a valid magic
  number a lookup agrees with the ray computation, which move generation uses.
- `board`, `make_move`, `movegen`: the position, attack tests, applying a move, and pseudo-legal
  and legal move generation (on a consistent position the generated moves are distinct, and a
  legal move keeps one piece per square and leaves the mover out of check).
- `fen`, `fen_parse`, `fen_laws`, `error`, `notation`: writing and reading FEN text (a position's
  text reads back as the position), the reading errors, and move and error texts.
- `eval`, `eval_laws`, `zobrist`, `tt`, `search`: static evaluation (symmetric between the sides),
  Zobrist keys and hashing, the transposition table, quiescence and negamax search, and perft.

`app/` is the command-line program around the library: it prints searches and perft
counts, runs the magic-number search, and exposes the Python module.

`tests/` exercises the library on concrete positions, including the standard perft counts.
