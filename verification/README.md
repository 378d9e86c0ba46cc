# isochrone

Which part of a road network can be driven within a number of minutes from a
point: the library finds it, and proves what it finds.

## Layout

- `src/graph.rs` — the road network: nodes, road links (lanes, speed limits,
  geometry as distances between points, driving times), the speed figures of a
  link, walking a link until a time limit, and the network itself.
- `src/search.rs` — the budget-bounded search from the closest point: a queue
  of reached nodes, explored cheapest first; links that fit are kept whole,
  of the others the part that fits.
- `src/full_search.rs` — the whole-network search: driving times to every
  reachable node; links whose far node is within the budget are kept.
- `src/closest.rs` — the closest point on the network where a search starts.
- `src/paging.rs` — when a paginated download is done.
- `app/` — the server around the library: loading the network from the road
  database, asking the closest-point service, the floating-point parts
  (haversine distances, the driving time model, the convex hull), and the
  download of road data.

Contracts describe a search as runs of rounds over a state of values (explored
nodes and links, the queue, the costs, the kept pieces); the laws state what
holds at the end of every run.
