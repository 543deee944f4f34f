# opengammon

Backgammon positions and legal move generation, and the one-sided bearoff database
(15 checkers on the 6 home-board points): its dense position index, the order in which it
is built, the plays that lead from one placement to the next, the fixed-point quantization
of its distributions, and its on-disk format. The library is written in Verus and its
behaviour is proved against the contracts it states.

## Layout

- `src/position.rs`: positions, their validation, mirroring.
- `src/moves.rs`: dice, checker moves, plies, applying them, and `generate_moves`, whose
  contract characterizes exactly the positions the rules let a roll reach.
- `src/combinatorial.rs`: the bijection between placements of at most `m` checkers on `P`
  points and `0..C(P + m, P)`.
- `src/one_sided.rs`: the database's placements, the weighted rolls, the children of a
  placement and the pip order in which placements are built.
- `src/quantize.rs`: bringing independently rounded probabilities to a sum of exactly
  `SCALE`.
- `src/disk.rs`: the file format, its parser and its encoder, with the round trip proved.
- `app/`: the floating-point dynamic programming that fills the database, quantizing and
  dequantizing `f64` distributions, writing and memory-mapping the file, and the error
  messages.
- `tests/`: tests of the library, including the database statistics built on top of it.
