# painter_domain

Domain logic of the thaum painter, verified with Verus.

`src/` is the verified library:

- `track`, `retile`, `track_ops`, `interp_mode`: property tracks as binary
  tilings of breath spans (solid blocks and empties), re-tiling over a layer
  span, and the block edits (split, swap, blank, merge, duplicate, mode and
  ease cycling) with the tiling invariants they keep.
- `track_move`, `track_cut`: the move track's keyframing under a drag, and
  the destructive timing edit (crops, straddle splits, removals).
- `canvas`, `records`, `selection`, `document`, `store`: painted cells, the
  persisted record and patch types, document selection channels, the shared
  document file and its schema guard.
- `runtime`: the shared document runtime: replaying an action log, per-layer
  undo and redo, history folding into baseline records, snapshot conflicts,
  the laws that relate a stroke, its undo and its redo, and the laws of
  replay: two replays of one document and log rebuild the same state, and a
  session built by applying records is such a replay.
- `hand_settings`: the rows of the hand-settings panel.
- `panel_click`: what a click on the layers panel does by row and column,
  the spans bar and property drags preview, what their release commits,
  and the loop-window drag preview.
- `layers_panel`, `graphic_picker`, `panels`: the state and decisions of the
  painter panels that do not depend on drawing.
- `json`, `file_schema`, `text`: a plain JSON model, the saved-file schema
  reader, and the text helpers the contracts speak of.

`app/` holds what stays outside the proofs: serde encodings of the persisted
types, the document and action-log files on disk, document locations, and the
file-schema fields that carry floating-point numbers.

`tests/` exercises the library on concrete values.

## What is not here

Some parts of the painter depend on modules or crates this project does not
have at hand, and stay out of the library:

- Drawing and pointer routing of the panels (`draw`, `hotspots`, pointer,
  wheel and key handlers of the layers, graphic, hand-settings, material,
  color, session, toolbar and toolbox panels) run through the renderer
  crate's cells, chrome and hit regions. The decisions they make on plain
  values are here: the layers panel's click routing, drag modes,
  double-click actions, content-head merges, the loop-window preview, track
  cell glyphs, scroll rows, the recall list, the session status and event
  lines, the session panel's synced state and action queue, and the
  toolbar's active button.
- The hand-settings rows are here (`hand_settings`), built from plain views
  of the two hands; the tool registry that says which property rows a tool
  declares is not part of this code base, so those come in as arguments.
  The toolbox, which reads the tool state itself, is not here.
- Resolving a layer's canvas or move offset at a breath
  (`resolved_canvas_for_layer`, `move_offset_for_layer`) needs the raster
  and move interpolation. `add_move_offset` takes the offset the move
  interpolation resolved, and `composited_canvas_in_layer_order` the
  layers' resolved canvases, as arguments.
- The timing edits take what their span rules resolved as an argument:
  the pushing edit its ripple (`BreathRipple`), the destructive edit its
  crops and removals (`DestructiveCut`). The span rules themselves are
  outside this code base.
