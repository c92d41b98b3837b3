# helix_graph_algorithms

Graph algorithms over a validated, immutable graph model, with their
behaviour stated as Verus contracts and proved.

Layout:

- `src/` — the verified library.
  - `model.rs`: nodes, edges, edge identities (including synthesized reverse
    edges), graph kinds and errors.
  - `graph.rs`: graph construction and validation, sorted records, and the
    compressed adjacency rows with their arc iteration.
  - `weight.rs`: finite floating-point values carried as their binary64 bit
    patterns, with the validity rules read off the bits.
  - `count.rs`: counts that are never zero, for sizes, caps and bounds.
  - `order.rs`: lexicographic order on strings and sequences.
  - `random.rs`: the seeded linear congruential generator and the
    Fisher–Yates shuffle.
  - `cycles.rs`: bounded simple-cycle enumeration in canonical form, over
    strongly connected (directed) or connected (undirected) components.
  - `centrality.rs`: betweenness options and source selection, the
    zero-weight check, and breadth-first shortest-path DAGs.
  - `community.rs`: community options, relabelling, lifting level
    partitions to original nodes, aggregation and the canonical ordering of
    communities and partitions.
  - `layout.rs`: validation of initial positions and the spring list.
- `app/` — the floating-point parts (path accumulation and Dijkstra for
  betweenness, modularity optimisation for Louvain and Leiden, force
  simulation for the spring layout) and the serde/thiserror record types,
  built on the library.
- `tests/` — tests run against the compiled library.
