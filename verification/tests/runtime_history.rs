use painter_domain::canvas::{CellGraphic, CellPoint, PaintColor, PaintedCell};
use painter_domain::document::{
    default_layer_length_breaths, default_layer_visible, default_property_track, DocumentWindow, SharedDocumentFile,
    SharedDocumentLayer, SHARED_DOCUMENT_KIND, SHARED_DOCUMENT_SCHEMA_VERSION, UNDO_HISTORY_DEPTH,
};
use painter_domain::records::{SharedCellPatch, SharedDocumentAction, SharedDocumentActionRecord};
use painter_domain::runtime::{layers_within, selection_in_order, SharedDocumentRuntime};
use painter_domain::records::PersistedCellPoint;
use painter_domain::selection::{SharedDocumentSelection, SharedDocumentSelectionChannel};

fn point(x: i32, y: i32) -> CellPoint {
    CellPoint { x, y, z: 0 }
}

fn cell(glyph: char) -> PaintedCell {
    PaintedCell {
        graphic: CellGraphic::Glyph(glyph),
        color: PaintColor::flat_rgb(255, 255, 255),
        weight_index: 1,
    }
}

fn copy_actions(actions: &[SharedDocumentActionRecord]) -> Vec<SharedDocumentActionRecord> {
    actions.iter().map(|record| record.copy()).collect()
}

fn paint(id: &str, layer_id: &str, at: CellPoint, glyph: char, block_id: Option<&str>) -> SharedDocumentActionRecord {
    SharedDocumentActionRecord::cell_patch_set(
        id,
        "doc-1",
        layer_id,
        "u1",
        "1",
        vec![SharedCellPatch::new(at, None, Some(&cell(glyph)))],
        block_id.map(|b| b.to_string()),
    )
}

fn fresh() -> SharedDocumentRuntime {
    SharedDocumentRuntime::new(SharedDocumentFile::single_layer("doc-1", "Doc", "layer-1", "Layer 1"))
}

#[test]
fn patch_actions_replay_undo_and_redo_for_one_layer() {
    let mut runtime = fresh();
    runtime.apply_action_record(paint("a1", "layer-1", point(1, 1), '#', Some("block-1")));
    assert_eq!(runtime.canvas_for_layer("layer-1", 0).unwrap().len(), 1);

    runtime.apply_action_record(SharedDocumentActionRecord::undo("a2", "doc-1", "layer-1", "u2", "2"));
    assert!(runtime.canvas_for_layer("layer-1", 0).unwrap().is_empty());

    runtime.apply_action_record(SharedDocumentActionRecord::redo("a3", "doc-1", "layer-1", "u1", "3"));
    assert_eq!(runtime.canvas_for_layer("layer-1", 0).unwrap().get(point(1, 1)), Some(&cell('#')));

    let replayed = SharedDocumentRuntime::replay(runtime.document.copy(), copy_actions(&runtime.actions));
    assert_eq!(replayed.canvas_for_layer("layer-1", 0), runtime.canvas_for_layer("layer-1", 0));
}

#[test]
fn undo_is_isolated_per_layer() {
    let layer = |id: &str, name: &str| SharedDocumentLayer {
        layer_id: id.to_string(),
        name: name.to_string(),
        visible: default_layer_visible(),
        locked: false,
        start_breath: 0,
        length_breaths: default_layer_length_breaths(),
        property_tracks: vec![
            default_property_track("raster", 0, default_layer_length_breaths()),
            default_property_track("move", 0, default_layer_length_breaths()),
        ],
    };
    let document = SharedDocumentFile {
        file_kind: SHARED_DOCUMENT_KIND.to_string(),
        schema_version: SHARED_DOCUMENT_SCHEMA_VERSION,
        document_id: "doc-1".to_string(),
        title: "Doc".to_string(),
        layers: vec![layer("layer-1", "Layer 1"), layer("layer-2", "Layer 2")],
        revision: 0,
        selection: SharedDocumentSelection::default(),
        document_window: DocumentWindow::default(),
    };
    let mut runtime = SharedDocumentRuntime::new(document);
    runtime.apply_action_record(paint("a1", "layer-1", point(0, 0), 'A', Some("block-1")));
    runtime.apply_action_record(paint("a2", "layer-2", point(0, 0), 'B', Some("block-1")));

    runtime.apply_action_record(SharedDocumentActionRecord::undo("a3", "doc-1", "layer-1", "u2", "3"));

    assert!(runtime.canvas_for_layer("layer-1", 0).unwrap().is_empty());
    assert_eq!(runtime.canvas_for_layer("layer-2", 0).unwrap().get(point(0, 0)), Some(&cell('B')));
}

#[test]
fn invalid_undo_is_a_no_op() {
    let mut runtime = fresh();
    runtime.apply_action_record(SharedDocumentActionRecord::undo("a1", "doc-1", "layer-1", "u1", "1"));
    assert!(runtime.canvas_for_layer("layer-1", 0).unwrap().is_empty());
    assert_eq!(runtime.actions.len(), 1);
}

#[test]
fn staged_stroke_patches_commit_idempotently_and_undo_as_one_stroke() {
    let mut runtime = fresh();
    let p = |x: i32, y: i32| CellPoint { x, y, z: 0 };
    let cell = |c: char| PaintedCell {
        graphic: CellGraphic::Glyph(c),
        color: PaintColor::flat_rgb(1, 2, 3),
        weight_index: 0,
    };

    // A drag stages chunks live, with no records yet.
    runtime.stage_canvas_patches("layer-1", "block-1", &vec![SharedCellPatch::new(p(1, 1), None, Some(&cell('A')))]);
    runtime.stage_canvas_patches("layer-1", "block-1", &vec![SharedCellPatch::new(p(2, 1), None, Some(&cell('B')))]);
    assert!(runtime.actions.is_empty());
    assert_eq!(runtime.block_canvas("layer-1", "block-1").unwrap().len(), 2);

    // Release: one record for the whole stroke, idempotent over the staged canvas.
    let patches = vec![
        SharedCellPatch::new(p(1, 1), None, Some(&cell('A'))),
        SharedCellPatch::new(p(2, 1), None, Some(&cell('B'))),
    ];
    let record = SharedDocumentActionRecord::cell_patch_set("a1", "doc-1", "layer-1", "u1", "1", patches, Some("block-1".to_string()));
    runtime.apply_action_record(record);
    assert_eq!(runtime.block_canvas("layer-1", "block-1").unwrap().len(), 2);

    // One undo reverts the entire stroke.
    let revert = runtime.undo_top_action("layer-1").unwrap();
    assert_eq!(revert.block_id, "block-1");
    assert_eq!(revert.patches.len(), 2);
    assert!(runtime.block_canvas("layer-1", "block-1").unwrap().is_empty());
    // Redo re-applies the same patches.
    let redo = runtime.redo_top_action("layer-1").unwrap();
    assert_eq!(redo.patches.len(), 2);
    assert_eq!(runtime.block_canvas("layer-1", "block-1").unwrap().len(), 2);
}

#[test]
fn passive_records_paint_content_without_entering_undo_stacks() {
    let mut runtime = fresh();
    let cell = PaintedCell {
        graphic: CellGraphic::Glyph('A'),
        color: PaintColor::flat_rgb(1, 1, 1),
        weight_index: 0,
    };
    runtime.apply_action_record(SharedDocumentActionRecord::cell_patch_set(
        "a1",
        "doc-1",
        "layer-1",
        "u1",
        "1",
        vec![SharedCellPatch::new(point(1, 1), None, Some(&cell))],
        Some("block-1".to_string()),
    ));
    // A passive record paints but never becomes an undo target.
    runtime.apply_action_record(
        SharedDocumentActionRecord::cell_patch_set(
            "baseline-1",
            "doc-1",
            "layer-1",
            "history-squash",
            "baseline",
            vec![SharedCellPatch::new(point(2, 1), None, Some(&cell))],
            Some("block-1".to_string()),
        )
        .as_passive(),
    );

    assert_eq!(runtime.block_canvas("layer-1", "block-1").unwrap().len(), 2);
    assert!(runtime.undo_top_action("layer-1").is_some());
    assert!(runtime.undo_top_action("layer-1").is_none());
}

#[test]
fn undo_revert_records_replay_to_the_same_state_without_undo_depth_growth() {
    let cell = |c: char| PaintedCell {
        graphic: CellGraphic::Glyph(c),
        color: PaintColor::flat_rgb(1, 1, 1),
        weight_index: 0,
    };
    let paint = |id: &str, pos: (i32, i32), c: char| {
        SharedDocumentActionRecord::cell_patch_set(
            id,
            "doc-1",
            "layer-1",
            "u1",
            "1",
            vec![SharedCellPatch::new(point(pos.0, pos.1), None, Some(&cell(c)))],
            Some("block-1".to_string()),
        )
    };

    // In session: paint A, paint B, undo B (revert record), undo A.
    let mut session = fresh();
    session.apply_action_record(paint("a1", (1, 1), 'A'));
    session.apply_action_record(paint("a2", (2, 1), 'B'));
    let revert_b = session.undo_top_action("layer-1").unwrap();
    session.push_history_record(SharedDocumentActionRecord::revert_patch_set(
        "r1",
        "doc-1",
        "layer-1",
        "u1",
        "2",
        revert_b.patches,
        Some("block-1".to_string()),
        &revert_b.action_id,
    ));
    let revert_a = session.undo_top_action("layer-1").unwrap();
    session.push_history_record(SharedDocumentActionRecord::revert_patch_set(
        "r2",
        "doc-1",
        "layer-1",
        "u1",
        "3",
        revert_a.patches,
        Some("block-1".to_string()),
        &revert_a.action_id,
    ));
    assert!(session.block_canvas("layer-1", "block-1").unwrap().is_empty());

    // Replaying the log reproduces the state, and undo depth does not grow.
    let mut reloaded = SharedDocumentRuntime::replay(
        SharedDocumentFile::single_layer("doc-1", "Doc", "layer-1", "Layer 1"),
        copy_actions(&session.actions),
    );
    assert!(reloaded.block_canvas("layer-1", "block-1").unwrap().is_empty());
    assert!(reloaded.undo_top_action("layer-1").is_none());

    // Redoing both strokes still works in session.
    assert!(session.redo_top_action("layer-1").is_some());
    assert!(session.redo_top_action("layer-1").is_some());
    assert_eq!(session.block_canvas("layer-1", "block-1").unwrap().len(), 2);
}

#[test]
fn fold_history_bounds_the_saved_log_and_replay_matches_the_final_state() {
    let cell = |c: char| PaintedCell {
        graphic: CellGraphic::Glyph(c),
        color: PaintColor::flat_rgb(1, 1, 1),
        weight_index: 0,
    };
    let mut runtime = fresh();
    for index in 0..30 {
        runtime.apply_action_record(SharedDocumentActionRecord::cell_patch_set(
            &format!("a{index}"),
            "doc-1",
            "layer-1",
            "u1",
            "1",
            vec![SharedCellPatch::new(point(index, 1), None, Some(&cell('A')))],
            Some("block-1".to_string()),
        ));
    }

    runtime.fold_history();
    let records = runtime.actions_for_file();
    assert_eq!(records.len(), UNDO_HISTORY_DEPTH + 1); // one baseline and the last twenty
    assert!(records[0].action_id.starts_with("baseline-"));

    // Replaying the folded log reproduces the final state.
    let mut reloaded = SharedDocumentRuntime::replay(
        SharedDocumentFile::single_layer("doc-1", "Doc", "layer-1", "Layer 1"),
        records,
    );
    assert_eq!(reloaded.block_canvas("layer-1", "block-1").unwrap(), runtime.block_canvas("layer-1", "block-1").unwrap());
    // Undo depth after reload is bounded by the window.
    let mut undo_count = 0;
    while reloaded.undo_top_action("layer-1").is_some() {
        undo_count += 1;
    }
    assert_eq!(undo_count, UNDO_HISTORY_DEPTH);
}

#[test]
fn fold_history_leaves_a_short_log_alone() {
    let mut runtime = fresh();
    for index in 0..(UNDO_HISTORY_DEPTH as i32) {
        runtime.apply_action_record(paint(&format!("a{index}"), "layer-1", point(index, 0), 'A', Some("block-1")));
    }
    runtime.fold_history();
    let records = runtime.actions_for_file();
    assert_eq!(records.len(), UNDO_HISTORY_DEPTH);
    assert_eq!(records[0].action_id, "a0");
}

#[test]
fn fold_history_writes_one_passive_baseline_per_painted_block() {
    let mut runtime = fresh();
    runtime.split_property_block("layer-1", "raster", "block-1", 8);
    for index in 0..25 {
        let block = if index % 2 == 0 { "block-1" } else { "block-2" };
        runtime.apply_action_record(paint(&format!("a{index}"), "layer-1", point(index, 0), 'Z', Some(block)));
    }
    runtime.fold_history();
    let records = runtime.actions_for_file();
    assert_eq!(records.len(), 2 + UNDO_HISTORY_DEPTH);
    let mut ids: Vec<String> = records[..2].iter().map(|r| r.action_id.clone()).collect();
    ids.sort();
    assert_eq!(ids, vec!["baseline-layer-1-block-1".to_string(), "baseline-layer-1-block-2".to_string()]);
    for record in &records[..2] {
        assert_eq!(record.user_id, "history-squash");
        assert_eq!(record.created_at, "baseline");
        match &record.action {
            SharedDocumentAction::CellPatchSet { passive, patches, .. } => {
                assert!(*passive);
                assert!(!patches.is_empty());
            }
            _ => panic!("a baseline is a patch set"),
        }
    }
}

#[test]
fn canvas_for_layer_resolves_the_block_covering_the_breath() {
    let mut runtime = fresh();
    runtime.split_property_block("layer-1", "raster", "block-1", 8);
    runtime.apply_action_record(paint("a1", "layer-1", point(0, 0), 'A', Some("block-1")));

    assert_eq!(runtime.canvas_for_layer("layer-1", 5).unwrap().get(point(0, 0)), Some(&cell('A')));
    // block-2 has no content yet, so later breaths render empty.
    assert!(runtime.canvas_for_layer("layer-1", 10).unwrap().is_empty());
    // A breath past every block has no canvas at all.
    assert!(runtime.canvas_for_layer("layer-1", 99).is_none());

    let replayed = SharedDocumentRuntime::replay(runtime.document.copy(), copy_actions(&runtime.actions));
    assert_eq!(replayed.canvas_for_layer("layer-1", 5), runtime.canvas_for_layer("layer-1", 5));
    assert_eq!(replayed.canvas_for_layer("layer-1", 10), runtime.canvas_for_layer("layer-1", 10));
}

#[test]
fn painting_into_a_blank_block_unblanks_it_and_lands_on_its_canvas() {
    let mut runtime = fresh();
    runtime.split_property_block("layer-1", "raster", "block-1", 8);
    runtime.apply_action_record(paint("a1", "layer-1", point(0, 0), 'A', Some("block-1")));
    assert!(runtime.blank_property_block("layer-1", "raster", "block-2"));
    assert!(runtime.canvas_for_layer("layer-1", 10).unwrap().is_empty());

    runtime.apply_action_record(paint("a2", "layer-1", point(0, 0), 'B', Some("block-2")));

    let blocks = &runtime.property_track("layer-1", "raster").unwrap().blocks;
    assert!(!blocks.iter().find(|block| block.id == "block-2").unwrap().is_blank);
    assert_eq!(runtime.canvas_for_layer("layer-1", 10).unwrap().get(point(0, 0)), Some(&cell('B')));
    // The first block's content is untouched.
    assert_eq!(runtime.canvas_for_layer("layer-1", 0).unwrap().get(point(0, 0)), Some(&cell('A')));
}

#[test]
fn legacy_records_without_a_block_id_replay_into_the_first_non_blank_block() {
    let mut runtime = fresh();
    runtime.split_property_block("layer-1", "raster", "block-1", 8);
    runtime.blank_property_block("layer-1", "raster", "block-1");

    runtime.apply_action_record(paint("a1", "layer-1", point(0, 0), 'A', None));

    assert_eq!(runtime.canvas_for_layer("layer-1", 10).unwrap().get(point(0, 0)), Some(&cell('A')));
    assert!(runtime.canvas_for_layer("layer-1", 0).unwrap().is_empty());

    let replayed = SharedDocumentRuntime::replay(runtime.document.copy(), copy_actions(&runtime.actions));
    assert_eq!(replayed.canvas_for_layer("layer-1", 10), runtime.canvas_for_layer("layer-1", 10));
}

#[test]
fn split_data_propagation_record_copies_the_source_canvas_onto_the_new_half() {
    let mut runtime = fresh();
    runtime.apply_action_record(paint("a1", "layer-1", point(0, 0), 'A', Some("block-1")));
    let new_block_id = runtime.split_property_block("layer-1", "raster", "block-1", 8).unwrap();

    let record = runtime
        .split_data_propagation_record("layer-1", "block-1", &new_block_id, "copy-1", "u1", "t")
        .expect("raster split should carry data");
    runtime.apply_action_record(record);

    // Both halves start as identical copies at different breaths.
    assert_eq!(runtime.canvas_for_layer("layer-1", 0), runtime.canvas_for_layer("layer-1", 10));
    assert_eq!(runtime.canvas_for_layer("layer-1", 10).unwrap().get(point(0, 0)), Some(&cell('A')));

    // Replay from the saved document reproduces the same copy.
    let replayed = SharedDocumentRuntime::replay(runtime.document.copy(), copy_actions(&runtime.actions));
    assert_eq!(replayed.canvas_for_layer("layer-1", 10), runtime.canvas_for_layer("layer-1", 10));
}

#[test]
fn split_data_propagation_record_is_none_for_an_empty_channel() {
    let mut runtime = fresh();
    let new_block_id = runtime.split_property_block("layer-1", "raster", "block-1", 8).unwrap();

    assert!(runtime
        .split_data_propagation_record("layer-1", "block-1", &new_block_id, "copy-1", "u1", "t")
        .is_none());
}

#[test]
fn duplicate_data_propagation_record_carries_the_content_to_the_copy() {
    let mut runtime = fresh();
    runtime.split_property_block("layer-1", "raster", "block-1", 8);
    runtime.apply_action_record(paint("a1", "layer-1", point(3, 4), 'D', Some("block-1")));
    let copy_id = runtime.duplicate_property_block("layer-1", "raster", "block-1").unwrap();
    let record = runtime
        .duplicate_data_propagation_record("layer-1", "block-1", &copy_id, "dup-1", "u1", "t")
        .unwrap();
    assert_eq!(record.action_id, "dup-1");
    match &record.action {
        SharedDocumentAction::CellPatchSet { block_id, passive, patches, .. } => {
            assert_eq!(block_id.as_deref(), Some(copy_id.as_str()));
            assert!(!*passive);
            assert_eq!(patches.len(), 1);
        }
        _ => panic!("a propagation record is a patch set"),
    }
    runtime.apply_action_record(record);
    assert_eq!(runtime.canvas_for_layer("layer-1", 9).unwrap().get(point(3, 4)), Some(&cell('D')));
    assert!(runtime.duplicate_data_propagation_record("layer-1", "missing", &copy_id, "dup-2", "u1", "t").is_none());
}

#[test]
fn replay_checked_replays_a_document_that_leaves_room_for_its_log() {
    let document = SharedDocumentFile::single_layer("doc-1", "Doc", "layer-1", "Layer 1");
    let log = vec![paint("a1", "layer-1", point(1, 1), 'A', None)];
    let runtime = SharedDocumentRuntime::replay_checked(document, copy_actions(&log)).unwrap();
    assert_eq!(runtime.actions_len(), 1);
    assert!(runtime.history_fits());
    let expected = SharedDocumentRuntime::replay(
        SharedDocumentFile::single_layer("doc-1", "Doc", "layer-1", "Layer 1"),
        log,
    );
    assert_eq!(runtime.actions_for_file(), expected.actions_for_file());
}

#[test]
fn replay_checked_refuses_a_document_at_the_end_of_time_or_out_of_order() {
    let mut late = SharedDocumentFile::single_layer("doc-1", "Doc", "layer-1", "Layer 1");
    late.layers[0].start_breath = u32::MAX - 3;
    assert!(SharedDocumentRuntime::replay_checked(late, Vec::new()).is_none());

    let mut unsorted = SharedDocumentFile::single_layer("doc-1", "Doc", "layer-1", "Layer 1");
    unsorted.selection = SharedDocumentSelection {
        channels: vec![SharedDocumentSelectionChannel {
            channel_id: "selection".to_string(),
            points: vec![PersistedCellPoint { x: 2, y: 0, z: 0 }, PersistedCellPoint { x: 1, y: 0, z: 0 }],
        }],
    };
    assert!(!selection_in_order(&unsorted.selection));
    assert!(SharedDocumentRuntime::replay_checked(unsorted, Vec::new()).is_none());
}

#[test]
fn layers_within_bounds_every_block_and_layer_end() {
    let document = SharedDocumentFile::single_layer("doc-1", "Doc", "layer-1", "Layer 1");
    // The default layer and its tracks end at breath 24 (the raster track's
    // trailing blank reaches 25).
    assert!(layers_within(&document.layers, 100));
    assert!(!layers_within(&document.layers, 10));
    assert!(layers_within(&Vec::new(), 0));
    let in_order = SharedDocumentSelection {
        channels: vec![SharedDocumentSelectionChannel {
            channel_id: "selection".to_string(),
            points: vec![PersistedCellPoint { x: 1, y: 0, z: 0 }, PersistedCellPoint { x: 1, y: 0, z: 1 }],
        }],
    };
    assert!(selection_in_order(&in_order));
}

#[test]
fn fold_history_files_baselines_by_layer_then_block() {
    let mut runtime = fresh();
    runtime.split_property_block("layer-1", "raster", "block-1", 8);
    runtime.add_layer("a-layer", "A");
    // Paint block-2 first, then layer-1's block-1, then the later layer,
    // which sorts first by id.
    runtime.apply_action_record(paint("p0", "layer-1", point(0, 0), 'Z', Some("block-2")));
    runtime.apply_action_record(paint("p1", "layer-1", point(1, 0), 'Z', Some("block-1")));
    let a_block = runtime.property_track("a-layer", "raster").unwrap().blocks[0].id.clone();
    for index in 2..25 {
        runtime.apply_action_record(paint(&format!("p{index}"), "a-layer", point(index, 0), 'Y', Some(&a_block)));
    }
    runtime.fold_history();
    let records = runtime.actions_for_file();
    let ids: Vec<String> = records[..3].iter().map(|r| r.action_id.clone()).collect();
    assert_eq!(
        ids,
        vec![
            format!("baseline-a-layer-{a_block}"),
            "baseline-layer-1-block-1".to_string(),
            "baseline-layer-1-block-2".to_string(),
        ]
    );
}
