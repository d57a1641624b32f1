use painter_domain::canvas::{Canvas, CellGraphic, CellMaterialId, CellPoint, PaintColor, PaintedCell, SpriteGraphic};
use painter_domain::document::{
    default_shared_document, ensure_supported_file_schema, painter_shared_document_paths, SharedDocumentFile,
    SharedDocumentPaths, UnsupportedFileReason, INITIAL_LAYER_ID, INITIAL_LAYER_NAME, SHARED_DOCUMENT_KIND,
    SHARED_DOCUMENT_SCHEMA_VERSION,
};
use painter_domain::json::{JsonMembers, JsonNumber, JsonValue};
use painter_domain::records::{
    apply_patches, PatchDirection, PersistedCellPoint, PersistedSharedGraphic, PersistedSharedPaintColor,
    PersistedSharedPaintedCell, SharedCellPatch, SharedDocumentAction, SharedDocumentActionRecord,
};

fn cell(glyph: char) -> PaintedCell {
    PaintedCell {
        graphic: CellGraphic::Glyph(glyph),
        color: PaintColor::flat_rgb(10, 20, 30),
        weight_index: 2,
    }
}

fn object(members: Vec<(&str, JsonValue)>) -> JsonValue {
    let mut list = JsonMembers::Nil;
    for (key, value) in members.into_iter().rev() {
        list = JsonMembers::Cons(key.to_string(), Box::new(value), Box::new(list));
    }
    JsonValue::Object(list)
}

#[test]
fn stored_cells_read_back_as_the_same_runtime_cells() {
    let cells = vec![
        cell('#'),
        PaintedCell { graphic: CellGraphic::NoGraphic, color: PaintColor::material(CellMaterialId::GrayScale), weight_index: 0 },
        PaintedCell {
            graphic: CellGraphic::Sprite(SpriteGraphic { atlas_relative_path: "cell-sprites/torch.png".to_string() }),
            color: PaintColor::flat_rgb(1, 2, 3),
            weight_index: -1,
        },
    ];
    for c in &cells {
        assert_eq!(&PersistedSharedPaintedCell::from_runtime(c).to_runtime(), c);
    }
    assert_eq!(
        PersistedSharedPaintColor::from_runtime(PaintColor::flat_rgb(1, 2, 3)).to_runtime(),
        PaintColor::flat_rgb(1, 2, 3)
    );
    assert_eq!(PersistedSharedGraphic::from_runtime(&CellGraphic::Glyph('x')).to_runtime(), CellGraphic::Glyph('x'));
}

#[test]
fn cell_points_round_trip_through_their_stored_form() {
    let p = CellPoint { x: -3, y: 4, z: 9 };
    assert_eq!(PersistedCellPoint::from_runtime(p).to_runtime(), p);
}

#[test]
fn a_patch_inverse_swaps_before_and_after_and_twice_is_the_patch() {
    let patch = SharedCellPatch::new(CellPoint { x: 1, y: 2, z: 0 }, Some(&cell('a')), Some(&cell('b')));
    let inverse = patch.inverse();
    assert_eq!(inverse.before, patch.after);
    assert_eq!(inverse.after, patch.before);
    assert_eq!(inverse.inverse(), patch);
}

#[test]
fn applying_patches_after_then_before_restores_the_canvas() {
    let mut canvas = Canvas::new();
    canvas.insert(CellPoint { x: 0, y: 0, z: 0 }, cell('o'));
    let patches = vec![
        SharedCellPatch::new(CellPoint { x: 0, y: 0, z: 0 }, Some(&cell('o')), Some(&cell('n'))),
        SharedCellPatch::new(CellPoint { x: 5, y: 0, z: 0 }, None, Some(&cell('m'))),
    ];
    apply_patches(&mut canvas, &patches, PatchDirection::After);
    assert_eq!(canvas.get(CellPoint { x: 0, y: 0, z: 0 }), Some(&cell('n')));
    assert_eq!(canvas.get(CellPoint { x: 5, y: 0, z: 0 }), Some(&cell('m')));
    apply_patches(&mut canvas, &patches, PatchDirection::Before);
    assert_eq!(canvas.get(CellPoint { x: 0, y: 0, z: 0 }), Some(&cell('o')));
    assert_eq!(canvas.get(CellPoint { x: 5, y: 0, z: 0 }), None);
    assert_eq!(canvas.len(), 1);
}

#[test]
fn record_constructors_fill_in_the_action() {
    let record = SharedDocumentActionRecord::cell_patch_set("a1", "doc-1", "layer-1", "u1", "t", vec![], Some("block-1".to_string()));
    assert_eq!(record.action_id, "a1");
    assert_eq!(
        record.action,
        SharedDocumentAction::CellPatchSet { patches: vec![], block_id: Some("block-1".to_string()), passive: false, reverts: None }
    );
    let revert = SharedDocumentActionRecord::revert_patch_set("r1", "doc-1", "layer-1", "u1", "t", vec![], None, "a1");
    assert_eq!(
        revert.action,
        SharedDocumentAction::CellPatchSet { patches: vec![], block_id: None, passive: true, reverts: Some("a1".to_string()) }
    );
    assert_eq!(SharedDocumentActionRecord::undo("u", "d", "l", "x", "t").action, SharedDocumentAction::Undo);
    assert_eq!(SharedDocumentActionRecord::redo("r", "d", "l", "x", "t").action, SharedDocumentAction::Redo);
}

#[test]
fn marking_a_record_passive_keeps_everything_else_and_is_idempotent() {
    let record = SharedDocumentActionRecord::cell_patch_set("a1", "doc-1", "layer-1", "u1", "t", vec![], Some("block-1".to_string()));
    let passive = record.copy().as_passive();
    assert_eq!(passive.action_id, record.action_id);
    assert_eq!(
        passive.action,
        SharedDocumentAction::CellPatchSet { patches: vec![], block_id: Some("block-1".to_string()), passive: true, reverts: None }
    );
    assert_eq!(passive.copy().as_passive(), passive);
    // Undo and redo records stay as they are.
    let undo = SharedDocumentActionRecord::undo("u", "d", "l", "x", "t");
    assert_eq!(undo.copy().as_passive(), undo);
}

#[test]
fn document_paths_join_the_file_names_under_the_root() {
    let paths = SharedDocumentPaths::new("/data/doc-1");
    assert_eq!(paths.root, "/data/doc-1");
    assert_eq!(paths.document_file_path, "/data/doc-1/document.json");
    assert_eq!(paths.actions_file_path, "/data/doc-1/actions.jsonl");
    let under = painter_shared_document_paths("/artifacts", "doc-2");
    assert_eq!(under.root, "/artifacts/shared-documents/doc-2");
    assert_eq!(under.document_file_path, "/artifacts/shared-documents/doc-2/document.json");
}

#[test]
fn the_default_document_has_one_initial_layer() {
    let document = default_shared_document("doc-9");
    assert_eq!(document.document_id, "doc-9");
    assert_eq!(document.title, "Untitled Document");
    assert_eq!(document.layers.len(), 1);
    assert_eq!(document.layers[0].layer_id, INITIAL_LAYER_ID);
    assert_eq!(document.layers[0].name, INITIAL_LAYER_NAME);
    assert_eq!(document.file_kind, SHARED_DOCUMENT_KIND);
    assert_eq!(document.schema_version, SHARED_DOCUMENT_SCHEMA_VERSION);
    assert!(document.has_layer("layer-1"));
    assert!(!document.has_layer("layer-2"));
    assert_eq!(document.first_layer_id(), Some("layer-1"));
}

#[test]
fn load_rejects_a_newer_schema_version_with_an_explicit_message() {
    let value = object(vec![
        ("file_kind", JsonValue::String(SHARED_DOCUMENT_KIND.to_string())),
        ("schema_version", JsonValue::Number(JsonNumber::PosInt(SHARED_DOCUMENT_SCHEMA_VERSION as u64 + 1))),
    ]);
    let error = ensure_supported_file_schema("/d/document.json", &value).unwrap_err();
    assert_eq!(
        error.reason,
        UnsupportedFileReason::VersionMismatch { found: SHARED_DOCUMENT_SCHEMA_VERSION + 1, supported: SHARED_DOCUMENT_SCHEMA_VERSION }
    );
    let message = error.message();
    assert!(message.contains("unsupported file at /d/document.json"));
    assert!(message.contains(&format!("file is schema v{}, this app reads v{}", SHARED_DOCUMENT_SCHEMA_VERSION + 1, SHARED_DOCUMENT_SCHEMA_VERSION)));
}

#[test]
fn load_rejects_a_wrong_kind_file_without_reading_its_body() {
    let value = object(vec![
        ("file_kind", JsonValue::String("thaum-painter-file".to_string())),
        ("schema_version", JsonValue::Number(JsonNumber::PosInt(SHARED_DOCUMENT_SCHEMA_VERSION as u64))),
        ("layers", JsonValue::Bool(true)),
    ]);
    let error = ensure_supported_file_schema("x.json", &value).unwrap_err();
    assert_eq!(
        error.reason,
        UnsupportedFileReason::KindMismatch { found: "thaum-painter-file".to_string(), supported: SHARED_DOCUMENT_KIND.to_string() }
    );
    assert!(error.message().contains("file kind 'thaum-painter-file' is not"));
}

#[test]
fn load_rejects_a_file_missing_kind_or_version_as_unsupported() {
    let no_kind = object(vec![("schema_version", JsonValue::Number(JsonNumber::PosInt(2)))]);
    let error = ensure_supported_file_schema("x.json", &no_kind).unwrap_err();
    assert_eq!(
        error.reason,
        UnsupportedFileReason::KindMismatch { found: "<missing>".to_string(), supported: SHARED_DOCUMENT_KIND.to_string() }
    );
    let no_version = object(vec![("file_kind", JsonValue::String(SHARED_DOCUMENT_KIND.to_string()))]);
    let error = ensure_supported_file_schema("x.json", &no_version).unwrap_err();
    assert_eq!(error.reason, UnsupportedFileReason::VersionMismatch { found: 0, supported: SHARED_DOCUMENT_SCHEMA_VERSION });
    assert!(error.message().contains("file carries no schema version"));
}

#[test]
fn a_supported_file_passes_the_gate() {
    let value = object(vec![
        ("file_kind", JsonValue::String(SHARED_DOCUMENT_KIND.to_string())),
        ("schema_version", JsonValue::Number(JsonNumber::PosInt(SHARED_DOCUMENT_SCHEMA_VERSION as u64))),
    ]);
    assert!(ensure_supported_file_schema("ok.json", &value).is_ok());
    let document = SharedDocumentFile::single_layer("d", "T", "l", "L");
    assert_eq!(document.layers[0].property_tracks.len(), 2);
}
