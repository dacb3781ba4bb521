# bevyjam

The rules of a top-down shooter written for a Bevy game jam, as a library verified
with Verus, and the Bevy program around it.

- `src/` is the verified library:
  - `grid` — the navigation grid: flat cell indices, the eight-neighbour layout,
    the link table of walkable cells and the cell costs;
  - `pathfinding` — the A* search over the grid, with its sorted open list;
  - `shooting` — magazines, spare rounds, reloads and the sounds of shots and impacts;
  - `interaction` — multi-use items, triggers, doors and explosive barrels;
  - `enemies` — what an enemy does with what it sees;
  - `audio` — the pool of audio channels and the playback commands of a sound source;
  - `damage`, `player`, `hints`, `inventory`, `hud`, `menu`, `phys_layers` — the
    smaller rules of the game and its screens.
- `tests/` runs the library on concrete values.
- `app/` is the Bevy program: systems that read the world (transforms, timers,
  collisions, input), call the library and apply its decisions. Floating-point
  geometry stays there.
