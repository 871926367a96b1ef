# yukari

The board, move generation and data-writing core of the Yukari chess engine, written in Verus
and proved against its contracts.

- `src/board/` holds the position: squares and piece slots (`data`, `index`, `piecemask`,
  `bitlist`), attack tables (`attacks`), pins (`pins`), FEN reading (`fen`), the position itself
  (`position`), and under `position/` the move generator (`movegen`), the proofs that generated
  moves keep the king safe (`legality`; castling is held to the rules that open it, and en
  passant to positions where the en-passant square is as a double push leaves it), static
  exchange evaluation (`see`) and algebraic notation (`san`).
- `src/tt.rs` and `src/ttentry.rs` are the transposition table and its entry logic; `src/search.rs`
  holds move ordering and repetition rules; `src/aspiration.rs` is the aspiration window of
  iterative deepening; `src/score.rs` formats scores; `src/datagen.rs`
  writes training records and decides when a game is adjudicated.
- `app/` is a small perft driver around the library.
- `tests/` exercises the library, including perft counts of well-known positions.
