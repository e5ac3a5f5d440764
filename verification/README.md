# spectral_graph_agent_rs

A graph toolkit for spectral analysis, split in two crates.

- `src/` is the verified library. It holds the graph structure (vertices,
  recorded edges, adjacency lists built on `finalize`), the builders for the
  standard families (complete, path, cycle, star, grid), and the
  combinatorial properties: degrees, edge count, regularity, minimum degree,
  connectivity (breadth-first search), articulation points (iterative
  depth-first search with low-links) and the checks on the number of
  clusters that spectral clustering asks for. Weights are a type parameter that the
  library never inspects. Every function carries a contract that Verus
  proves; `laws.rs` states and proves facts about any sequence of recorded
  edges (one edge per successful `add_edge`, self-loops included, and the
  degree each vertex gets from them), about the graph families (edge counts,
  degrees, connectivity, cut vertices) and the symmetry of undirected
  graphs, and `dfs.rs` / `cut.rs` prove that the articulation-point count is
  the number of cut vertices of every undirected graph, parallel edges and
  self-loops included.
- `app/` holds the spectral part, which computes with `f64` through
  nalgebra: Laplacians, eigendecomposition, power iteration, Fiedler value
  and vector, Cheeger constant, centrality, mixing time, expander quality,
  spectral gaps, clustering and robustness. It reads the graph through the
  library's accessors (`num_vertices`, `neighbors`, `degree`, ...).
