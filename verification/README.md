# tree_of_stars

The simulation rules of Tree of Stars, a logistics game on a hexagonal grid,
as a verified library.

Nodes stand on the grid and are joined by links; every source node keeps a
routing graph of the area around it and offers its resources to the sink it
reaches soonest, timing each route by its length (the cells of the paths of
the links it crosses); sinks take the soonest offer; packets follow routes
cell by cell; reactors turn what their sink gathered into what their source offers;
pylons share power over the nodes their areas cover; a growth test spreads new
nodes outward.

- `src/` is the library, written in Verus: each operation carries a contract,
  and the laws that relate operations are proof functions beside them.
  - `hex`: coordinates, distances, rings, disks and lines.
  - `geom`: who occupies which cells, and which areas cover a cell.
  - `map`: single-cell locations.
  - `graph`: nodes, links, the cells they take up, and following a route.
  - `network`: the routing graph of an area and its remembered routes.
  - `area`: area graphs and area node sets.
  - `resource`: resources, pools, sources, sinks, pulling and storing.
  - `pull`: how sources make offers and sinks choose among them.
  - `reactor`: timed work and reactions.
  - `power`: the pylon grid and the nodes a group of pylons covers.
  - `world`: the tables of the network and the operations that keep them in
    step.
  - `game`: selection, placement rules and the growth test.
  - `mode`: how an event walks down the stack of interaction modes.
- `tests/` exercises the library on concrete values.
- `app/` runs the simulation without a window; motion and power sharing,
  which work in floating point, live there.
