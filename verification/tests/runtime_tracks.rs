use painter_domain::canvas::{CellGraphic, CellPoint, PaintColor, PaintedCell};
use painter_domain::document::SharedDocumentFile;
use painter_domain::json::{JsonMembers, JsonNumber, JsonValue};
use painter_domain::records::{SharedCellPatch, SharedDocumentActionRecord};
use painter_domain::runtime::SharedDocumentRuntime;
use painter_domain::track::SharedDocumentPropertyBlock;

fn point(x: i32, y: i32) -> CellPoint {
    CellPoint { x, y, z: 0 }
}

fn cell(glyph: char) -> PaintedCell {
    PaintedCell {
        graphic: CellGraphic::Glyph(glyph),
        color: PaintColor::flat_rgb(255, 255, 255),
        weight_index: 1,
    }
}

fn fresh() -> SharedDocumentRuntime {
    SharedDocumentRuntime::new(SharedDocumentFile::single_layer("doc-1", "Doc", "layer-1", "Layer 1"))
}

fn covered(runtime: &SharedDocumentRuntime, property_id: &str) -> Vec<(u32, u32, bool)> {
    runtime
        .property_track("layer-1", property_id)
        .unwrap()
        .blocks
        .iter()
        .map(|b| (b.start_breath, b.start_breath + b.length_breaths, b.is_blank))
        .collect()
}

fn interpretation_of(runtime: &SharedDocumentRuntime, block_id: &str) -> Option<String> {
    runtime
        .property_track("layer-1", "raster")
        .unwrap()
        .blocks
        .iter()
        .find(|b| b.id == block_id)
        .unwrap()
        .interpretation
        .clone()
}

#[test]
fn split_property_block_creates_two_ordered_blocks() {
    let mut runtime = fresh();
    assert!(runtime.split_property_block("layer-1", "raster", "block-1", 8).is_some());
    let blocks = &runtime.property_track("layer-1", "raster").unwrap().blocks;

    assert_eq!(blocks.len(), 3);
    assert_eq!(blocks[0].id, "block-1");
    assert_eq!(blocks[0].start_breath, 0);
    assert_eq!(blocks[0].length_breaths, 8);
    assert_eq!(blocks[1].start_breath, 8);
    assert_eq!(blocks[1].length_breaths, 16);
    assert_eq!(blocks[2].id, "tail");
    assert!(blocks[2].is_blank);
}

#[test]
fn adjacent_empties_merge_into_one_on_retile() {
    let mut runtime = fresh();
    assert!(runtime.blank_property_block("layer-1", "raster", "block-1"));
    assert!(runtime.set_layer_timing("layer-1", 0, 12));
    assert!(runtime.set_layer_timing("layer-1", 0, 24));
    let track = runtime.property_track("layer-1", "raster").unwrap();
    assert_eq!(track.blocks.len(), 1);
    assert!(track.blocks[0].is_blank);
    // The merged empty absorbs the trailing blank representative.
    assert_eq!((track.blocks[0].start_breath, track.blocks[0].length_breaths), (0, 25));
}

#[test]
fn blanking_next_to_an_existing_empty_merges_them() {
    let mut runtime = fresh();
    runtime.split_property_block("layer-1", "raster", "block-1", 8);

    assert!(runtime.blank_property_block("layer-1", "raster", "block-1"));
    assert!(runtime.blank_property_block("layer-1", "raster", "block-2"));
    let track = runtime.property_track("layer-1", "raster").unwrap();
    assert_eq!(track.blocks.len(), 1);
    assert!(track.blocks[0].is_blank);
}

#[test]
fn merge_empty_prefers_the_left_content_block() {
    let mut runtime = fresh();
    runtime.split_property_block("layer-1", "raster", "block-1", 8);
    assert!(runtime.blank_property_block("layer-1", "raster", "block-1"));
    assert!(runtime.split_property_block("layer-1", "raster", "block-2", 16).is_some());

    // No content on the left, so the merge falls back to the right.
    assert!(runtime.merge_empty_property_block("layer-1", "raster", "block-1", true));
    assert_eq!(covered(&runtime, "raster"), vec![(0, 16, false), (16, 24, false), (24, 25, true)]);
}

#[test]
fn merge_empty_prefers_left_when_both_sides_have_content() {
    let mut runtime = fresh();
    runtime.split_property_block("layer-1", "raster", "block-1", 8);
    runtime.split_property_block("layer-1", "raster", "block-2", 16);

    assert!(runtime.blank_property_block("layer-1", "raster", "block-2"));
    assert!(runtime.merge_empty_property_block("layer-1", "raster", "block-2", true));
    assert_eq!(covered(&runtime, "raster"), vec![(0, 16, false), (16, 24, false), (24, 25, true)]);
}

#[test]
fn merge_empty_on_a_fully_empty_track_rejects() {
    let mut runtime = fresh();
    assert!(!runtime.merge_empty_property_block("layer-1", "raster", "block-1", true));
}

#[test]
fn merge_empty_rejects_content_blocks() {
    let mut runtime = fresh();
    assert!(!runtime.merge_empty_property_block("layer-1", "raster", "block-1", true));
}

#[test]
fn duplicate_lands_on_the_right_pushing_later_blocks() {
    let mut runtime = fresh();
    runtime.split_property_block("layer-1", "raster", "block-1", 8);

    let new_id = runtime.duplicate_property_block("layer-1", "raster", "block-1").expect("duplicate");
    assert_eq!(
        covered(&runtime, "raster"),
        vec![(0, 8, false), (8, 16, false), (16, 32, false), (32, 33, true)]
    );
    assert_ne!(new_id, "block-1");
}

#[test]
fn duplicate_past_the_viewport_end_leaves_the_layer_span_alone() {
    let mut runtime = fresh();
    let _new_id = runtime.duplicate_property_block("layer-1", "raster", "block-1").expect("duplicate");
    let layer = runtime.layers().iter().find(|layer| layer.layer_id == "layer-1").unwrap();
    assert_eq!((layer.start_breath, layer.length_breaths), (0, 24));
    assert_eq!(covered(&runtime, "raster"), vec![(0, 24, false), (24, 48, false), (48, 49, true)]);
}

#[test]
fn duplicate_does_not_disturb_earlier_blocks() {
    let mut runtime = fresh();
    runtime.split_property_block("layer-1", "raster", "block-1", 8);
    runtime.split_property_block("layer-1", "raster", "block-2", 16);

    let new_id = runtime.duplicate_property_block("layer-1", "raster", "block-2").expect("duplicate");
    let track = runtime.property_track("layer-1", "raster").unwrap();
    let ids: Vec<&str> = track.blocks.iter().map(|b| b.id.as_str()).collect();
    assert_eq!(ids.len(), 5);
    assert_eq!(&ids[..4], &["block-1", "block-2", new_id.as_str(), "block-3"]);
    assert_eq!(track.blocks[0].start_breath, 0);
    assert_eq!(track.blocks[1].start_breath, 8);
    assert_eq!(track.blocks[2].start_breath, 16);
    assert_eq!(track.blocks[3].start_breath, 24);
    assert!(track.blocks[4].is_blank);
    assert_ne!(track.blocks[4].id, track.blocks[3].id);
}

#[test]
fn split_rejects_blank_blocks() {
    let mut runtime = fresh();
    assert!(runtime.blank_property_block("layer-1", "raster", "block-1"));
    assert!(runtime.split_property_block("layer-1", "raster", "block-1", 8).is_none());
}

#[test]
fn set_layer_timing_resizes_the_viewport_without_clipping_tracks() {
    let mut runtime = fresh();
    runtime.split_property_block("layer-1", "raster", "block-1", 8);

    assert!(runtime.set_layer_timing("layer-1", 0, 32));
    assert_eq!(covered(&runtime, "raster"), vec![(0, 8, false), (8, 24, false), (24, 32, true)]);

    assert!(runtime.set_layer_timing("layer-1", 0, 12));
    assert_eq!(covered(&runtime, "raster"), vec![(0, 8, false), (8, 24, false), (24, 32, true)]);
}

#[test]
fn swap_property_blocks_exchanges_their_breath_ranges() {
    let mut runtime = fresh();
    runtime.split_property_block("layer-1", "raster", "block-1", 8);

    assert!(runtime.swap_property_blocks("layer-1", "raster", "block-1", "block-2"));
    let blocks = &runtime.property_track("layer-1", "raster").unwrap().blocks;
    assert_eq!(blocks[0].start_breath, 0);
    assert_eq!(blocks[0].length_breaths, 8);
    assert_eq!(blocks[1].start_breath, 8);
    assert_eq!(blocks[1].length_breaths, 16);

    assert!(!runtime.swap_property_blocks("layer-1", "raster", "block-1", "block-1"));
    assert!(!runtime.swap_property_blocks("layer-1", "raster", "block-1", "missing"));
}

#[test]
fn swap_butting_two_empties_together_merges_them() {
    let mut runtime = fresh();
    runtime.split_property_block("layer-1", "raster", "block-1", 8);
    runtime.split_property_block("layer-1", "raster", "block-2", 16);
    assert!(runtime.blank_property_block("layer-1", "raster", "block-1"));

    assert!(runtime.swap_property_blocks("layer-1", "raster", "block-1", "block-3"));
    assert_eq!(covered(&runtime, "raster"), vec![(0, 8, false), (8, 16, false), (16, 25, true)]);
    let track = runtime.property_track("layer-1", "raster").unwrap();
    let blanks: Vec<_> = track.blocks.iter().filter(|b| b.is_blank).collect();
    assert_eq!(blanks.len(), 1, "adjacent empties must merge into one");
}

#[test]
fn swap_property_blocks_moves_the_content_with_the_block() {
    let mut runtime = fresh();
    runtime.split_property_block("layer-1", "raster", "block-1", 8);
    runtime.apply_action_record(SharedDocumentActionRecord::cell_patch_set(
        "a1",
        "doc-1",
        "layer-1",
        "u1",
        "1",
        vec![SharedCellPatch::new(point(0, 0), None, Some(&cell('A')))],
        Some("block-1".to_string()),
    ));

    assert!(runtime.swap_property_blocks("layer-1", "raster", "block-1", "block-2"));
    assert_eq!(runtime.canvas_for_layer("layer-1", 10).unwrap().get(point(0, 0)), Some(&cell('A')));
    assert!(runtime.canvas_for_layer("layer-1", 0).unwrap().is_empty());
}

#[test]
fn first_breath_with_raster_block_seeks_content_and_skips_leading_gaps() {
    let mut runtime = fresh();
    assert_eq!(runtime.first_breath_with_raster_block("layer-1"), Some(0));

    runtime.split_property_block("layer-1", "raster", "block-1", 8);
    runtime.split_property_block("layer-1", "raster", "block-2", 16);
    assert!(runtime.blank_property_block("layer-1", "raster", "block-1"));
    runtime.apply_action_record(SharedDocumentActionRecord::cell_patch_set(
        "a1",
        "doc-1",
        "layer-1",
        "u1",
        "1",
        vec![SharedCellPatch::new(point(0, 0), None, Some(&cell('A')))],
        Some("block-2".to_string()),
    ));
    assert_eq!(runtime.first_breath_with_raster_block("layer-1"), Some(8));

    assert_eq!(runtime.first_breath_with_raster_block("missing"), None);
}

#[test]
fn swapping_strands_loop_modes_back_to_the_default_interpolate() {
    let mut runtime = fresh();
    runtime.split_property_block("layer-1", "raster", "block-1", 8);
    let tail_id = runtime.property_track("layer-1", "raster").unwrap().blocks.last().unwrap().id.clone();
    runtime.cycle_property_block_interp_mode("layer-1", "raster", &tail_id);
    runtime.cycle_property_block_interp_mode("layer-1", "raster", &tail_id);
    assert_eq!(
        runtime.property_track("layer-1", "raster").unwrap().blocks.last().unwrap().interpretation.as_deref(),
        Some("loop_out")
    );

    // The tail's span moves into the middle of the track: no loop mode survives there.
    assert!(runtime.swap_property_blocks("layer-1", "raster", "block-1", &tail_id));
    let blocks = &runtime.property_track("layer-1", "raster").unwrap().blocks;
    assert!(blocks.iter().all(|b| b.interpretation.is_none()));
    assert!(blocks.last().unwrap().is_blank);
}

#[test]
fn the_trailing_blank_cycles_onto_loop_out() {
    let mut runtime = fresh();
    let tail_id = runtime.property_track("layer-1", "raster").unwrap().blocks.last().unwrap().id.clone();
    assert!(runtime.cycle_property_block_interp_mode("layer-1", "raster", &tail_id));
    assert_eq!(interpretation_of(&runtime, &tail_id).as_deref(), Some("hold"));
    assert!(runtime.cycle_property_block_interp_mode("layer-1", "raster", &tail_id));
    assert_eq!(interpretation_of(&runtime, &tail_id).as_deref(), Some("loop_out"));
    // Solid blocks have no interpolation to cycle.
    assert!(!runtime.cycle_property_block_interp_mode("layer-1", "raster", "block-1"));
}

#[test]
fn loading_a_document_normalizes_tracks_into_the_binary_tiling() {
    let mut document = SharedDocumentFile::single_layer("doc-1", "Doc", "layer-1", "Layer 1");
    let offset = JsonValue::Object(JsonMembers::Cons(
        "x".to_string(),
        Box::new(JsonValue::Number(JsonNumber::PosInt(5))),
        Box::new(JsonMembers::Cons(
            "y".to_string(),
            Box::new(JsonValue::Number(JsonNumber::PosInt(0))),
            Box::new(JsonMembers::Cons(
                "z".to_string(),
                Box::new(JsonValue::Number(JsonNumber::PosInt(0))),
                Box::new(JsonMembers::Nil),
            )),
        )),
    ));
    document.layers[0].property_tracks[1].blocks = vec![SharedDocumentPropertyBlock {
        id: "block-1".to_string(),
        start_breath: 0,
        length_breaths: 8,
        is_blank: false,
        value: Some(offset),
        interpretation: None,
        ease_out_percent: None,
        ease_in_percent: None,
    }];
    let runtime = SharedDocumentRuntime::new(document);
    let blocks = &runtime.property_track("layer-1", "move").unwrap().blocks;
    assert_eq!(blocks.len(), 2, "solid + trailing blank after load");
    assert!(!blocks[0].is_blank);
    assert!(blocks[1].is_blank);
}

#[test]
fn property_track_shape_prints_spans_and_empties() {
    let mut runtime = fresh();
    assert_eq!(runtime.property_track_shape("layer-1", "raster"), "[0..24 24..25/e]");
    runtime.split_property_block("layer-1", "raster", "block-1", 8);
    assert_eq!(runtime.property_track_shape("layer-1", "raster"), "[0..8 8..24 24..25/e]");
    assert_eq!(runtime.property_track_shape("layer-1", "missing"), "[]");
    assert_eq!(runtime.property_track_shape("missing", "raster"), "[]");
}

#[test]
fn active_raster_block_follows_the_playhead() {
    let mut runtime = fresh();
    runtime.split_property_block("layer-1", "raster", "block-1", 8);
    assert_eq!(runtime.active_raster_block_id("layer-1", 0).as_deref(), Some("block-1"));
    assert_eq!(runtime.active_raster_block_id("layer-1", 7).as_deref(), Some("block-1"));
    assert_eq!(runtime.active_raster_block_id("layer-1", 8).as_deref(), Some("block-2"));
    assert_eq!(runtime.active_raster_block_id("layer-1", 24).as_deref(), Some("tail"));
    assert_eq!(runtime.active_raster_block_id("layer-1", 25), None);
    assert_eq!(runtime.active_raster_block_id("missing", 0), None);
}

#[test]
fn ease_cycles_only_on_empties_whose_mode_uses_them() {
    let mut runtime = fresh();
    let tail_id = runtime.property_track("layer-1", "raster").unwrap().blocks.last().unwrap().id.clone();
    assert!(runtime.cycle_property_block_ease_out("layer-1", "raster", &tail_id));
    let ease = runtime.property_track("layer-1", "raster").unwrap().blocks.last().unwrap().ease_out_percent;
    assert_eq!(ease, Some(33));
    assert!(runtime.cycle_property_block_ease_in("layer-1", "raster", &tail_id));
    assert!(!runtime.cycle_property_block_ease_out("layer-1", "raster", "block-1"));
}

#[test]
fn swap_on_a_layer_without_the_track_creates_it_first() {
    let mut runtime = fresh();
    assert!(runtime.property_track("layer-1", "opacity").is_none());
    assert!(!runtime.swap_property_blocks("layer-1", "opacity", "block-1", "missing"));
    assert_eq!(covered(&runtime, "opacity"), vec![(0, 24, false), (24, 25, true)]);

    let mut runtime = fresh();
    assert!(runtime.swap_property_blocks("layer-1", "opacity", "block-1", "tail"));
    let shape = covered(&runtime, "opacity");
    assert_eq!(shape[0], (0, 24, true));
    assert_eq!(shape[1], (24, 25, false));
}
