# puzzle15

A verified sliding-tile puzzle library (8-puzzle, 15-puzzle, any `n`×`n`).

* `src/board/` — the `Board` trait and its two implementations:
  `PackedBoard` (4×4, the cells packed four bits each in a `u64`) and
  `DynamicBoard` (any side, one byte per cell).  Boards are modelled by their
  cells and blank index; `grid.rs`, `properties.rs`, `distance.rs` and
  `parity.rs` hold the facts about moves and neighbour lists, the Manhattan
  heuristic (symmetric, zero only on equal positions) and the parity rule,
  `solvability.rs` the proof that every puzzle position the parity rule
  accepts can reach the solved layout (in fewer than `u32::MAX` moves), and
  `keymap.rs` the visited maps built on `rustc_hash::FxHashMap`.
* `src/inversions.rs` — merge-sort inversion count used by the parity rule.
* `src/solver/` — the two-stack bucket search (`bucket_dfs`) and its
  bidirectional variant (`bidirectional`), both generic over `Board`, with
  proofs that on puzzle positions they return a solution exactly when the
  parity rule accepts the start, and a shortest one (`levels.rs` holds the
  invariant behind the latter, and the proof that the heuristic never
  exceeds the moves needed).
* `src/input.rs` — the puzzle file format.
* `app/main.rs` — the command-line program:
  `puzzle15 [--solver bucket|bidir] FILE [FILE ...]`.
