# hydro

The combinatorial core of a hydraulic network design engine, written in
Verus. Every function in `src/` carries a contract. Verus proves all of
them except the few wrappers that call petgraph and std (`graph.rs`:
`digraph_*`; `text.rs`: `string_push`, `upper_str`, `lower_str`), whose
contracts are trusted and say, in their doc comments, what they claim of
the outside code.

## Layout

- `src/` — the verified library.
  - `graph.rs`: `SolverGraph`, a directed graph over unique string ids kept
    in a petgraph `DiGraph`; name-ordered neighbours, the lexicographically
    first topological order (Kahn), breadth-first visit order.
  - `orient.rs`: loading spanning-tree adjacency lists and Steiner trees into
    graphs, and orienting a tree towards its outlet (the result is acyclic,
    and the outlet drains last).
  - `steiner.rs`, `prune.rs`, `kruskal.rs`, `union_find.rs`, `compact.rs`,
    `connect.rs`: the integer side of the Steiner search — terminal lookup,
    index adjacency, Kruskal's selection over a union-find forest, leaf
    pruning, tree membership, connectivity and canonical edge lists.
  - `simplify.rs`, `mesh.rs`: the structure of network layout — the nodes
    of an oriented sewer tree that must stay and the chains between them;
    loop candidates, the loop budget, the edge order of a looped mesh, and
    valve placement.
  - `grid.rs`, `survey.rs`, `yen.rs`, `spanning.rs`: terrain-graph
    topology (grid edges, connected components), survey size checks, the
    k-shortest-paths search as a step machine (spur requests, candidate
    buffer, acceptance), and Prim's selection of spanning-tree edges.
  - `enums.rs`, `network.rs`, `request.rs`, `error.rs`, `text.rs`: domain
    enums and names, identifiers and pipe adjacency, request defaults and the
    ordered request checks, errors, and string helpers.
- `tests/` — tests of the library on concrete values.
- `app/` — ordinary Rust around the library: serde forms of its types, the
  real-valued models (constraints, requests, terrain model, weighted terrain
  graph, the floating-point steps of the Steiner search and of manhole
  spacing), which call into the library for everything combinatorial.

## Not included

The hydraulic solvers (sewer, water supply, distribution, conveyance,
pump station and intake design) are not part of this crate. Their pipe
sizing rests on the Manning and Hazen-Williams routines of the
`hydro_hydraulics` crate, which is not available to this build. The
structural steps they share — orienting a tree towards its outlet, the
topological order, manhole chains, loop candidates and the edge order of a
looped mesh, valve placement — are in `src/` (`orient.rs`, `graph.rs`,
`simplify.rs`, `mesh.rs`), ready for a solver layer to call.
