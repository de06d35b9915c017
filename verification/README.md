# dag-viewer core

The logic of a browser-based viewer for directed acyclic graphs written in a
subset of Graphviz DOT, verified with Verus.

## Layout

- `src/lexer.rs`: tokens of the DOT subset (`digraph`, braces, attribute
  lists, `->`, quoted and bare words, the `pos`, `dv_label` and `dv_link`
  keywords).
- `src/parser.rs`: node and edge statements, with the coordinate text of
  `pos` attributes and the segments of Graphviz splines.
- `src/number.rs`: which texts are floating-point numbers, in the grammar
  that `f32` parsing accepts.
- `src/graph.rs`: the graph of the statements (nodes found by name or added,
  one path per edge, paths joined to their end nodes).
- `src/model.rs`: the model (nodes and drawn paths), roots, link decoding.
- `src/scene.rs`: the scene and hover highlighting of what lies downstream
  and upstream of a node.
- `src/layout.rs`: the layered layout (gathering below the root, settling
  the last layer, fake nodes for edges that cross layers, cells, drawn
  paths).
- `src/colours.rs`, `src/data_types.rs`, `src/text.rs`, `src/error.rs`:
  palettes, the shared data types, byte-string helpers and parse errors.
- `app/`: the WebAssembly entry points, the camera and the drawing, which
  work in floating point and call the page's canvas.

Coordinates are kept as the text the source gives (or as layout cells) in
the library, which refuses a source whose coordinate text is not a number;
the front end turns them into numbers when it draws.
