# songline_math

Navigable knowledge graphs: waypoints (nodes with an identifier and a weight)
joined by verses (directed edges), with highest-weight path finding, a
connectivity score, hub detection, a community score, a deterministic mutation
step and a fitness score. The library is written in Verus and proved against
its contracts.

- `src/weight.rs`: the operations on weights that the algorithms use. The
  library never looks inside a weight, so its proofs hold for any weight type.
- `src/graph.rs`: `Waypoint`, `Verse`, `SonglineGraph`, their mathematical
  views and the well-formedness invariant (the adjacency lists are exactly the
  verses).
- `src/navigation.rs`: Dijkstra's search, `pathfind` and the navigability
  fraction.
- `src/analysis.rs`: degrees, `find_hubs` and the modularity fraction.
- `src/evolution.rs`: the mutation generator and `mutate`, and the density
  fraction.
- `src/counting.rs`: counting verses, as a whole and source by source.
- `src/laws.rs`: properties that relate several functions.
- `app/lib.rs`: the WebAssembly bindings, with `f64` weights and the
  floating-point scores built from the verified fractions.
