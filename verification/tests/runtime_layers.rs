use painter_domain::canvas::CellPoint;
use painter_domain::document::{DocumentWindow, SharedDocumentFile};
use painter_domain::runtime::SharedDocumentRuntime;
use painter_domain::selection::{SharedSelectionWriteMode, DEFAULT_SELECTION_CHANNEL_ID};

fn fresh() -> SharedDocumentRuntime {
    SharedDocumentRuntime::new(SharedDocumentFile::single_layer("doc-1", "Doc", "layer-1", "Layer 1"))
}

#[test]
fn add_layer_initializes_runtime_state_and_preserves_order() {
    let mut runtime = fresh();

    let added = runtime.add_layer("layer-2", "Layer 2").unwrap();

    assert_eq!(added.layer_id, "layer-2");
    assert_eq!(runtime.layers().len(), 2);
    assert_eq!(runtime.layers()[1].name, "Layer 2");
    assert!(runtime.canvas_for_layer("layer-2", 0).unwrap().is_empty());
}

#[test]
fn adding_an_existing_layer_id_returns_the_layer_unchanged() {
    let mut runtime = fresh();
    let existing = runtime.add_layer("layer-1", "Again").unwrap();
    assert_eq!(existing.name, "Layer 1");
    assert_eq!(runtime.layers().len(), 1);
}

#[test]
fn set_layer_locked_updates_the_layer_entry() {
    let mut runtime = fresh();

    assert!(runtime.set_layer_locked("layer-1", true));
    assert!(runtime.layers()[0].locked);
    assert!(!runtime.set_layer_locked("missing-layer", true));
}

#[test]
fn set_layer_visible_updates_the_layer_entry() {
    let mut runtime = fresh();
    assert!(runtime.set_layer_visible("layer-1", false));
    assert!(!runtime.layers()[0].visible);
    assert!(!runtime.set_layer_visible("missing-layer", true));
}

#[test]
fn rename_layer_updates_the_layer_entry() {
    let mut runtime = fresh();

    assert!(runtime.rename_layer("layer-1", "Renamed"));
    assert_eq!(runtime.layers()[0].name, "Renamed");
    assert!(!runtime.rename_layer("missing-layer", "Nope"));
}

#[test]
fn remove_layer_drops_the_layer_and_its_canvas() {
    let mut runtime = fresh();
    runtime.add_layer("layer-2", "Layer 2");

    assert!(runtime.remove_layer("layer-1"));
    assert_eq!(runtime.layers().len(), 1);
    assert_eq!(runtime.layers()[0].layer_id, "layer-2");
    assert!(runtime.canvas_for_layer("layer-1", 0).is_none());
    assert!(!runtime.remove_layer("layer-1"));
}

#[test]
fn set_layer_timing_updates_start_and_length_and_enforces_a_minimum_length() {
    let mut runtime = fresh();
    assert_eq!(runtime.layers()[0].start_breath, 0);
    assert_eq!(runtime.layers()[0].length_breaths, 24);

    assert!(runtime.set_layer_timing("layer-1", 5, 10));
    assert_eq!(runtime.layers()[0].start_breath, 5);
    assert_eq!(runtime.layers()[0].length_breaths, 10);

    assert!(runtime.set_layer_timing("layer-1", 5, 0));
    assert_eq!(runtime.layers()[0].length_breaths, 1);

    assert!(!runtime.set_layer_timing("missing-layer", 0, 1));
}

#[test]
fn the_document_window_is_set_and_read_back() {
    let mut runtime = fresh();
    assert_eq!(runtime.document_window(), DocumentWindow { start_breath: 0, end_breath: 23 });
    runtime.set_document_window(4, 12);
    assert_eq!(runtime.document_window(), DocumentWindow { start_breath: 4, end_breath: 12 });
}

#[test]
fn a_fresh_runtime_keeps_the_document_revision() {
    let mut document = SharedDocumentFile::single_layer("doc-1", "Doc", "layer-1", "Layer 1");
    document.revision = 7;
    let runtime = SharedDocumentRuntime::new(document);
    assert_eq!(runtime.revision(), 7);
    assert!(runtime.actions.is_empty());
    assert!(runtime.actions_for_file().is_empty());
}

#[test]
fn selection_channels_apply_all_write_modes() {
    let mut runtime = fresh();
    let p = |x: i32, y: i32| CellPoint { x, y, z: 0 };

    // A fresh document carries the one default channel, empty.
    assert!(runtime.selection_points(DEFAULT_SELECTION_CHANNEL_ID).is_empty());

    runtime.apply_selection_points(DEFAULT_SELECTION_CHANNEL_ID, vec![p(1, 1), p(2, 1)], SharedSelectionWriteMode::Additive);
    runtime.apply_selection_points(DEFAULT_SELECTION_CHANNEL_ID, vec![p(3, 1)], SharedSelectionWriteMode::Additive);
    assert_eq!(runtime.selection_points(DEFAULT_SELECTION_CHANNEL_ID), vec![p(1, 1), p(2, 1), p(3, 1)]);
    assert!(runtime.selection_contains(DEFAULT_SELECTION_CHANNEL_ID, p(2, 1)));

    runtime.apply_selection_points(DEFAULT_SELECTION_CHANNEL_ID, vec![p(2, 1)], SharedSelectionWriteMode::Subtract);
    assert!(!runtime.selection_contains(DEFAULT_SELECTION_CHANNEL_ID, p(2, 1)));

    runtime.apply_selection_points(DEFAULT_SELECTION_CHANNEL_ID, vec![p(1, 1), p(2, 1)], SharedSelectionWriteMode::Intersect);
    assert_eq!(runtime.selection_points(DEFAULT_SELECTION_CHANNEL_ID), vec![p(1, 1)]);

    runtime.apply_selection_points(DEFAULT_SELECTION_CHANNEL_ID, vec![p(4, 4), p(5, 4)], SharedSelectionWriteMode::Replace);
    assert_eq!(runtime.selection_points(DEFAULT_SELECTION_CHANNEL_ID), vec![p(4, 4), p(5, 4)]);

    // An unknown channel id is created on demand rather than rejected.
    assert!(runtime.apply_selection_points("private", vec![p(0, 0)], SharedSelectionWriteMode::Additive));
    assert!(runtime.selection_contains("private", p(0, 0)));
}

#[test]
fn selection_writes_report_whether_anything_changed() {
    let mut runtime = fresh();
    let p = |x: i32, y: i32| CellPoint { x, y, z: 0 };
    assert!(runtime.apply_selection_points(DEFAULT_SELECTION_CHANNEL_ID, vec![p(1, 1)], SharedSelectionWriteMode::Additive));
    assert!(!runtime.apply_selection_points(DEFAULT_SELECTION_CHANNEL_ID, vec![p(1, 1)], SharedSelectionWriteMode::Additive));
    assert!(!runtime.apply_selection_points(DEFAULT_SELECTION_CHANNEL_ID, vec![p(9, 9)], SharedSelectionWriteMode::Subtract));
    // Creating an empty channel changes no points.
    assert!(!runtime.apply_selection_points("empty", vec![], SharedSelectionWriteMode::Replace));
    assert!(runtime.selection_points("empty").is_empty());
    assert!(runtime.selection_points("never-made").is_empty());
    assert!(!runtime.selection_contains("never-made", p(1, 1)));
}
