# graphexa

Graph layouts for React Flow graphs, compiled to WebAssembly. The combinatorial part of every
layout is a library verified with Verus; the JSON surface and the floating-point geometry sit
around it.

- `src/` — the verified library:
  - `graph` — node lookup by id, edge resolution, undirected adjacency lists.
  - `search`, `traversal`, `bfs` — breadth-first search, its exact visiting order, per-component
    levels and breadth-first layers.
  - `layered` — longest-path ranking (removal of nodes without pending incoming edges) and its
    layers.
  - `planar`, `two_coloring` — the planarity tests (edge bounds, two-colouring, complete
    subgraphs) and planar layers.
  - `grid`, `radial`, `shell`, `multipartite`, `transform_locked` — cells, orders, shells,
    subset layers and the plan for completing a partly placed drawing.
  - `options`, `text_order`, `splitmix` — option names, string order, the pseudo-random
    generator.
- `tests/` — tests of the library on concrete graphs.
- `app/` — the `wasm-bindgen` entry points, JSON reading and writing, and the coordinate
  computations in floating point.
