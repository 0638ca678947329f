# node_graph

The data model of a node-graph editor, verified with Verus, and the editor
around it.

- `src/graph/` — nodes, pins and links (`model.rs`), their mathematical
  description and lemmas (`spec.rs`), and `GraphState` (`state.rs`): id
  allocation, adding and removing nodes and links. Removing a node removes
  every node with its id and every link touching any of their pins. Every
  operation keeps the links directed (output pin to input pin) and pairwise
  distinct.
- `src/ui/editor.rs` — the editor's decisions: which pins a dragged link
  joins, the canvas context menu, deleting a selection, node titles.
- `src/ui/file_tree.rs` — which directory entries the project panel lists
  and in what order (directories first, each group stably sorted by
  lowercase name).
- `src/app.rs` — the graph the editor opens with.
- `app/` — the window, rendering with dear-imgui / dear-imnodes, file and
  directory reads, and JSON persistence with serde.
