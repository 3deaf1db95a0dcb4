# hdqtsp-lehmer

A hybrid DAG solver for the travelling salesman problem whose integer core is
verified with Verus.

`src/` is the verified library:

- `lehmer` — the Lehmer-code (factorial number system) decoder: route index to
  permutation and back, with the round-trip laws proved.
- `tour` — tour validity, merging of partial routes, missing cities, 2-opt
  moves, the route builder used by nearest-neighbour construction.
- `dag` — the decomposition DAG: the choice of decomposition, flat windows,
  the planned cluster tree, its assembly with bridge cities, connection cities;
  every decomposition is a tree rooted at node 0; the leaves of a planned tree
  hold every city exactly once.
- `subsets` — k-element sub-lists for the Held-Karp programme.
- `sample` — how many route indices to score, and the sample of distinct
  randomly drawn indices.
- `stats` — node counts by outcome for the solver's statistics.
- `config` — solver configuration and shot scheduling.
- `api` — the integer entry points of the browser build.

`app/` holds everything that compares floating-point distances (route costs,
spectral clustering with nalgebra, cheapest insertion, 2-opt acceptance,
Held-Karp), the serde and wasm-bindgen types, and the benchmarking CLI.
