# wasmtea

A graph editing and analysis engine, and a Markdown-to-HTML renderer, written
in Verus. Every function of the library carries a contract that Verus proves,
with one exception: `push_markdown_html` in `src/markdown.rs`, which calls
`pulldown-cmark`, is trusted. Its contract (the rendering is appended to the
buffer, and depends on the Markdown text alone) is taken on trust, and the
rendering itself is only named, not described.

## Layout

- `src/graph.rs`: the editable graph (vertices, undirected edges, fresh ids),
  its abstract model `GraphModel` and the invariant every operation keeps.
- `src/walks.rs`: walks, reachability, distances, components, two-colourings
  and the diameter, over adjacency matrices.
- `src/search.rs`: breadth-first distances, component counting, the
  bipartiteness test and the diameter of a connected graph.
- `src/degrees.rs`, `src/coloring.rs`, `src/exact.rs`: degrees, first-fit
  colouring, and the exact independent set and clique searches.
- `src/presets.rs`, `src/shapes.rs`: the named preset graphs and what each of
  them is (complete graph, cycle, path, star, wheel, Petersen graph, complete
  bipartite graph, grid).
- `src/analysis.rs`: the analysis report.
- `src/laws.rs`: properties that relate several operations (the handshake
  lemma, deleting what was just added).
- `src/markdown.rs`, `src/cli.rs`: Markdown rendering through `pulldown-cmark`,
  and the command's options.
- `app/`: the command-line program and the browser-facing graph object
  (canvas positions, JSON, floating-point layout and ratios).
- `tests/`: tests on concrete values.
