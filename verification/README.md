# basebuilder

The core of a tile-based colony builder, verified with Verus: workers dig, fell trees,
haul and build on a side-on grid of tiles, and their decisions are proved against
specifications.

## Layout

- `src/` is the verified library.
  - `inventory` — items, stacks of at most `MAX_STACK_SIZE`, inventories with an optional
    set of accepted products; adding, removing, taking and moving stacks, with the amounts
    of every item conserved.
  - `pathfinding` — the terrain grid, climbable tiles, the rules for standing, climbing and
    moving, the A* search (through the `pathfinding` crate) and walking along a path.
  - `actions` — one tick of each of the workers' actions as a function from what the
    action's system saw to the next action state and what to do.
  - `labor` — jobs, job assignment, commuting to a job site, and the stuck timer.
  - `construction` — building progress and the materials a building still needs.
  - `health` — hit points and damage.
  - `dwarf` — where the dwarves of a new colony land.
  - `entity` — the identifiers of things in the world.
- `tests/` runs the library on concrete values.
- `app/` runs the game's systems headless on top of the library with `bevy` and
  `big-brain`; positions in the world are floating point and stay there.
