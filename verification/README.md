# thought_map

A thought map: thoughts are written in small windows, wait in an inbox, are
dragged onto a map where they become nodes, and nodes are joined by
connections; the map lays itself out like a spring model.

- `src/` is the library, verified with Verus: the graph of nodes and
  connections (`app.rs`, with its well-formedness invariant), the decisions the
  window makes on each pointer or keyboard event, and the laws that relate the
  operations (`laws.rs`).
- `app/` is the window: egui draws and reads input, and the floating-point
  layout (distances, springs, speeds) is computed there.
- `tests/` runs the library on concrete maps.
