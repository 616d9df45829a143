# bitboard

A bitboard chess move generator: board representation, attack sets, move
application, pseudo-legal and legal move generation, FEN and UCI text, perft, and
the generators of the precomputed attack-table sources — with contracts proved by
Verus.

## Layout

- `src/` — the library, verified.
  - `bits.rs`, `bitboardmask.rs`, `square.rs`, `piece.rs`, `geometry.rs`: the
    vocabulary — which squares a word holds, squares, pieces, and the attack
    geometry every other module is stated in.
  - `bitboard.rs`, `subray.rs`, `attack.rs`, `intrinsics.rs`: attack sets, rays,
    attack detection and the bit tricks (pext/pdep, popcount, lowest bit).
  - `position.rs`, `castling.rs`, `occupancy.rs`, `piecebitboards.rs`, `zobrist.rs`:
    the position and how a move changes it.
  - `movegen/`: per-piece pseudo-legal generators, captures, legality, and the
    laws about them (`sound.rs`, `fast_check.rs`).
  - `fen.rs`, `fen_roundtrip.rs`, `uci.rs`, `mov.rs`, `text.rs`: text in and out,
    and the proof that reading back a written FEN gives the same position.
  - `perft.rs`: node counts with their exact recursive specification.
  - `build_tools.rs`, `generator.rs`: relevant-occupancy masks and the text of the
    generated table sources, with the proof that a table entry looked up at an
    occupancy's index is that occupancy's attack set.
  - `attack_table.rs`: the slider attack tables built in memory and looked up at the
    `pext` index of an occupancy.
- `tests/` — the test suite.
- `app/` — what stays outside verification: cache prefetch hints, diagnostics on
  standard error, writing generated sources to disk, and the BMI2 fast path.
