# puzzles

Solvers for eleven three-part puzzles, written in Verus. Every solver takes the
puzzle input as bytes and has a contract that states its answers over
mathematical models of the input (spec functions in the same module), proved by
Verus.

- `src/text.rs`: lines, trimming, decimal numbers and words of byte strings.
- `src/grid.rs`, `src/seen.rs`, `src/bfs.rs`: rectangular maps, a bit set of
  visited cells and a breadth-first search over any graph.
- `src/puzzle01.rs` to `src/puzzle11.rs`: one module per puzzle, each with
  `solve_part1`, `solve_part2`, `solve_part3` and `solve`, and the laws the
  puzzle's rules obey (public proof functions).
- `tests/`: tests on concrete inputs.
- `app/`: reads input files and renders the answers as text.
