# library

A small competitive-programming library, verified with Verus.

- `src/misc/rand.rs` — `Pcg32`, a permuted congruential generator: seeding, 32/64/128-bit
  outputs, and `gen_range`, rejection sampling over any `PcgRandomInt` type. Every output is
  stated exactly in terms of the generator's state (`pcg_step`, `pcg_output`).
- `src/graph/bfs.rs` — `bfs`, breadth-first search driven by a `BfsHandler`, and
  `restore_path`. The contracts say that every start ends up visited, that the search only
  marks states reached from a start, that no state is taken from the queue or expanded twice,
  that it closes the visited set under successors unless it is stopped, and, for a graded
  search, that states are taken layer by layer and each key is first reached at its lowest layer.
- `src/graph/recorder.rs` — `PathRecorder`, a handler over adjacency lists that records parents
  and the order in which vertices are taken; the paths it records are shortest.
- `src/aoj/bfs.rs` — `solve`, shortest distances from vertex 0 of a directed graph (AOJ
  ALDS1_11_C), proved shortest.
- `src/io/mod.rs` — `StdinSource`, the tokenizer of standard input (the caller reads the lines):
  successive calls give the tokens of a line in order, and the tokens of lines that end in a line
  feed are those of the whole input; `FromInput` reads a token as `str::parse` does.
- `src/algorithm/simulated_annealing.rs` — the `AnnealingState` trait.

`app/` holds what cannot be verified: reading standard input, the `input!` macros, the wall
clock, simulated annealing (floating point), and the AOJ program's `run`.
