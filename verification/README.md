# corridor_path

Route search through a 20×20×20 cost cube, with a one-hot QUBO that picks
the cheapest of several alternative routes through a window of a path.

`src/` is the verified library:

- `walk` — positions, the six-neighbourhood, walks, and the facts that the
  cube is connected and that a walk needs at least Manhattan-distance moves.
- `grid` — the cost grid (an `ndarray` array behind a small trusted
  interface), walk costs, and the terrain with its two slabs.
- `search` — A* and breadth-first search from the `pathfinding` crate, with
  their shortest-path contracts.
- `enumerate` — depth-first enumeration of simple routes, proved sound,
  complete and free of repeats.
- `qubo` — the one-hot QUBO coefficients and the proof that the lowest energy
  selects exactly one cheapest route.
- `refine` — windows of a path, alternative routes, the solver's choice,
  savings and obstacle injection.
- `plan` — the two runs (corridor and obstacles) up to the solver.

`app/` holds the program: printing and the `quantrs2-tytan` solvers, which
work on floating-point matrices.
