# lumber_stage

The simulation and scene logic of a small lumberjack village for the WASM-4
fantasy console, verified with Verus.

Three workers walk between trees and a store house over a 40 x 40 grid of
walkable cells. They choose trees at random, find their way with a
breadth-first search, chop wood and carry it home. Trees die when their wood
is gone, stumps come back as little trees, little trees grow up, and water
ripples move.

## Layout

- `src/` — the verified library:
  - `game_stage.rs`: the game state, its invariant and the frame update;
  - `pathfinding.rs`: the breadth-first search (a route is found exactly
    when one exists; it is a shortest one, the one the search order gives);
  - `workers.rs`: what each worker does in a frame;
  - `nature.rs`: ripples, dying and growing trees;
  - `setup.rs`: the initial village;
  - `render.rs`, `objects.rs`, `tilemap.rs`: the drawing commands of a frame;
  - `random.rs`: the xorshift generator behind every random choice;
  - `grid.rs`, `passability.rs`: grid cells, routes, and the bit sets of cells
    (through the `bitsetium` crate);
  - `laws.rs`: wood and tree counts, and lemmas about them.
- `tests/` — tests of the library on concrete values.
- `app/` — the console side: it runs the stage each frame and executes the
  drawing commands with the console's drawing functions.
