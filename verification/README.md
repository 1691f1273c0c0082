# chess

A chess engine and rules library written in Verus, with its behaviour stated
in contracts and proved.

- `src/engine/` — the engine behind the game server: bitboards, move
  generation, evaluation, alpha-beta search with a Zobrist-keyed
  transposition table.
- `src/ws/handler.rs` — the message logic of one game session (what the
  server answers to each client message, and the FEN it reports).
- `src/chess/` — a rules library over a mailbox + bitboard board: pieces,
  tiles and moves, making and unmaking moves, legal move generation, check,
  mate, stalemate, draws, and move-path counting. `rules.rs` states the rules
  over an abstract board model; `soundness.rs` proves that the start position
  is sound and that legal play keeps a position sound.
- `app/` — the terminal game and the WebSocket endpoint (I/O, JSON, async).
- `tests/` — tests run against the compiled library.
