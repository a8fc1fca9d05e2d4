# game_core

The rules of a small idle colony game, written in Verus and proved against
their contracts.

Colonists live on a 50 x 50 grid of grass, sand and water. They grow hungry and
tired, walk to berry bushes and beds, build what the player orders and wander
when there is nothing to do. The content (terrain, buildings, needs, statuses)
comes from a content pack.

## Layout

- `src/` — the verified library.
  - `content.rs`: the content registry built from a parsed pack, and its lookups.
  - `world.rs`: the grid, world generation, placing and removing buildings.
  - `components.rs`: entities, tasks, paths, construction sites, bed reservations.
  - `cost.rs`: exact path costs `a + b * sqrt(2)` and their order.
  - `pathfinding.rs`: A* with eight-way moves; returned routes are shortest.
  - `systems.rs`: the colony state and its bookkeeping.
  - `tasks.rs`: dropping tasks that can no longer be done, and assigning new ones.
  - `movement.rs`: which waypoint a colonist heads for, and who may take a cell.
  - `execution.rs`: building, eating, sleeping and stepping off a bed.
  - `game.rs`: the game state, player orders, snapshots and the tick.
  - `laws.rs`: properties that span several operations.
- `tests/` — tests on concrete values.
- `app/` — the host side: JSON (serde), the WebAssembly bindings, and the
  quantities kept as floating point (positions, needs, work, time).

## Data structures

The colony is a plain struct of vectors (`Colony`) in place of an entity-component
world, so that every rule can be stated and proved over sequences. Lookups that a
hash map would serve (content ids by name, the colonist standing on a cell, the
statuses of a colonist) are vectors searched in order, with "no key twice" kept as
part of each type's well-formedness. The A* search keeps its scores in arrays indexed
by cell and takes the cheapest open cell by a scan. Vectors and their views are what
Verus's standard library specifies best, and the grid is small (2500 cells), so the
linear searches cost little.

Quantities that are floating point in the game (positions, needs, amounts of work,
timers, speed) stay with the host in `app/`, which hands the library their integer
consequences: below-threshold flags, ticks of work, whether a site was touched.
