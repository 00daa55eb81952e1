# sc2pathlib

Map analysis for StarCraft II bots: from the pathing, placement and height grids
of a map it builds pathing grids for ground, air, reaper and colossus units and
marks, for every cell, whether it is walkable, inside the playable area, a border
of unwalkable terrain, and whether an overlord can hide on it. Overlord spots are
high unwalkable plateaus around which every cell lies at least `DIFFERENCE` lower.

Climb, cliff and choke detection are not computed: no cell is marked climbable, a
cliff or a choke, so the reaper and colossus grids equal the ground grid, and path
search and influence queries are not part of the library.

The library in `src/` is written in Verus and verified:

- `map_point.rs`: what is known of one cell.
- `path_find.rs`: a pathing grid with its dimensions.
- `grid.rs`: grids, cell keys and neighbours, as specifications.
- `flood.rs`: the overlord flood fill and its exact specification, with the
  proof that it visits the plateau of its start cell and the cells around it.
- `survey.rs`: the first two passes of the analysis.
- `scan.rs`, `refine.rs`: the third pass, cell by cell.
- `map.rs`: the map, its construction and its drawing and query functions.
- `laws.rs`: properties that hold across functions.

`app/` holds the Python bindings (pyo3); `tests/` the tests.
