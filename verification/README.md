# family_tree

The verified core of a family-tree editor. The editor shows a graph of
characters and families, a pane of assets (images and character files kept
in a folder, addressed by numeric handles) and an inspector that edits one
asset on a copy with undo and redo.

- `src/` is the library, verified with Verus:
  - `graph/`: the node graph (nodes, connections, selection, removal with
    renumbering, depth- and breadth-first walks, the order the widget lays
    nodes out in, what a drop or a click asks of the graph, how the cursor
    state moves) and its laws;
  - `family.rs`: family-tree nodes, and what connecting two nodes does;
  - `family_row.rs`: which nodes stand in a family's row of children, with
    the partners set beside them, and its laws;
  - `assets/`: asset kinds and paths, the asset store with its index of
    handles, loading and renaming, file-type detection, the asset pane's
    listing, and its laws;
  - `inspector.rs`: the inspector's state machine and its undo/redo laws;
  - `dialog.rs`, `notification.rs`, `drag.rs`, `text.rs`: dialogs,
    notifications and their countdown, what is being dragged, and string
    helpers.
- `tests/` exercises the library on concrete values.
- `app/` is the window (built with `iced`), the file dialogs and the file
  system, the saved forms of the library's types, and the geometry of the
  graph widget.
