use painter_domain::document::SharedDocumentFile;
use painter_domain::json::as_i64;
use painter_domain::retile::retiled_property_track;
use painter_domain::runtime::SharedDocumentRuntime;
use painter_domain::track::SharedDocumentPropertyBlock;
use painter_domain::track_move::MoveOffset;
use painter_domain::track_cut::DestructiveCut;
use painter_domain::track_ops::BreathRipple;

fn fresh() -> SharedDocumentRuntime {
    SharedDocumentRuntime::new(SharedDocumentFile::single_layer("doc-1", "Doc", "layer-1", "Layer 1"))
}

fn shape(runtime: &SharedDocumentRuntime, property: &str) -> Vec<(u32, u32, bool)> {
    runtime
        .property_track("layer-1", property)
        .unwrap()
        .blocks
        .iter()
        .map(|b| (b.start_breath, b.start_breath + b.length_breaths, b.is_blank))
        .collect()
}

fn move_shape(runtime: &SharedDocumentRuntime) -> Vec<(u32, u32, bool, Option<i64>)> {
    runtime
        .property_track("layer-1", "move")
        .unwrap()
        .blocks
        .iter()
        .map(|b| {
            (
                b.start_breath,
                b.start_breath + b.length_breaths,
                b.is_blank,
                b.value.as_ref().and_then(|v| as_i64(v.get("x"))),
            )
        })
        .collect()
}

fn dx(x: i32) -> MoveOffset {
    MoveOffset { x, y: 0, z: 0 }
}

fn block(id: &str, start: u32, length: u32, blank: bool) -> SharedDocumentPropertyBlock {
    SharedDocumentPropertyBlock {
        id: id.to_string(),
        start_breath: start,
        length_breaths: length,
        is_blank: blank,
        value: None,
        interpretation: None,
        ease_out_percent: None,
        ease_in_percent: None,
    }
}

#[test]
fn a_new_document_starts_with_the_default_tracks() {
    let document = SharedDocumentFile::single_layer("doc-1", "Doc", "layer-1", "Layer 1");
    for track in &document.layers[0].property_tracks {
        let blocks: Vec<(&str, u32, u32, bool)> =
            track.blocks.iter().map(|b| (b.id.as_str(), b.start_breath, b.length_breaths, b.is_blank)).collect();
        assert_eq!(blocks, vec![("block-1", 0, 24, false), ("tail", 24, 1, true)]);
    }
}

#[test]
fn a_retile_turns_only_the_gaps_into_empties() {
    let blocks = vec![block("block-1", 0, 4, false), block("block-2", 8, 4, false), block("tail", 24, 1, true)];
    let out = retiled_property_track(blocks, 0, 24);
    let got: Vec<(u32, u32, bool)> = out.iter().map(|b| (b.start_breath, b.start_breath + b.length_breaths, b.is_blank)).collect();
    assert_eq!(got, vec![(0, 4, false), (4, 8, true), (8, 12, false), (12, 25, true)]);
}

#[test]
fn a_drag_on_the_placeholder_keyframe_sets_its_offset_in_place() {
    let mut runtime = fresh();
    assert!(runtime.add_move_offset("layer-1", 2, dx(2), dx(0)));
    assert_eq!(move_shape(&runtime), vec![(0, 24, false, Some(2)), (24, 25, true, None)]);
    // A drag at the keyframe's own start accumulates there.
    assert!(runtime.add_move_offset("layer-1", 0, dx(1), dx(0)));
    assert_eq!(move_shape(&runtime), vec![(0, 24, false, Some(3)), (24, 25, true, None)]);
}

#[test]
fn a_drag_inside_a_keyframe_carves_an_empty_and_a_new_keyframe() {
    let mut runtime = fresh();
    assert!(runtime.add_move_offset("layer-1", 2, dx(2), dx(0)));
    assert!(runtime.add_move_offset("layer-1", 12, dx(10), dx(0)));
    assert_eq!(
        move_shape(&runtime),
        vec![(0, 6, false, Some(2)), (6, 12, true, None), (12, 24, false, Some(12)), (24, 25, true, None)]
    );
}

#[test]
fn a_drag_past_the_stored_extent_lands_a_one_breath_keyframe() {
    let mut runtime = fresh();
    assert!(runtime.add_move_offset("layer-1", 2, dx(2), dx(0)));
    assert!(runtime.add_move_offset("layer-1", 12, dx(10), dx(0)));
    // The interpolation holds x = 12 through the trailing empty.
    assert!(runtime.add_move_offset("layer-1", 30, dx(5), dx(12)));
    assert_eq!(
        move_shape(&runtime),
        vec![
            (0, 6, false, Some(2)),
            (6, 12, true, None),
            (12, 24, false, Some(12)),
            (24, 30, true, None),
            (30, 31, false, Some(17)),
            (31, 32, true, None)
        ]
    );
}

#[test]
fn a_zero_drag_or_a_missing_layer_changes_nothing() {
    let mut runtime = fresh();
    assert!(!runtime.add_move_offset("layer-1", 2, dx(0), dx(0)));
    assert!(!runtime.add_move_offset("nope", 2, dx(1), dx(0)));
    assert_eq!(move_shape(&runtime), vec![(0, 24, false, None), (24, 25, true, None)]);
}

#[test]
fn a_pushing_edit_moves_the_block_and_its_neighbors_then_retiles() {
    let mut runtime = fresh();
    assert!(runtime.split_property_block("layer-1", "raster", "block-1", 8).is_some());
    // block-1 0..8, block-2 8..24, tail 24..25; grow block-1 to 12 and push
    // block-2 (the first of the other blocks) to 12..28.
    let ripple = BreathRipple { edited: (0, 12), shifted: vec![(0, 12, 16)] };
    assert!(runtime.set_property_block_timing_pushed("layer-1", "raster", "block-1", &ripple));
    assert_eq!(shape(&runtime, "raster"), vec![(0, 12, false), (12, 28, false), (28, 29, true)]);
    let missing = BreathRipple { edited: (0, 4), shifted: Vec::new() };
    assert!(!runtime.set_property_block_timing_pushed("layer-1", "raster", "block-9", &missing));
}

#[test]
fn destructive_timing_crops_an_overlapped_neighbor() {
    let mut runtime = fresh();
    assert!(runtime.split_property_block("layer-1", "raster", "block-1", 8).is_some());
    // block-1 0..8, block-2 8..24, tail; grow block-1 to 0..12: block-2 crops to 12..24.
    let cut = DestructiveCut { trimmed: vec![(0, 12, 12)], removed: Vec::new() };
    assert!(runtime.set_property_block_timing_destructive("layer-1", "raster", "block-1", 0, 12, &cut));
    assert_eq!(shape(&runtime, "raster"), vec![(0, 12, false), (12, 24, false), (24, 25, true)]);
    assert!(runtime.block_canvas("layer-1", "block-2").is_some());
}

#[test]
fn destructive_timing_removes_a_covered_neighbor_and_its_canvas() {
    let mut runtime = fresh();
    assert!(runtime.split_property_block("layer-1", "raster", "block-1", 8).is_some());
    assert!(runtime.block_canvas("layer-1", "block-2").is_some());
    let cut = DestructiveCut { trimmed: Vec::new(), removed: vec![0] };
    assert!(runtime.set_property_block_timing_destructive("layer-1", "raster", "block-1", 0, 24, &cut));
    assert_eq!(shape(&runtime, "raster"), vec![(0, 24, false), (24, 25, true)]);
    assert!(runtime.block_canvas("layer-1", "block-2").is_none());
}

#[test]
fn destructive_timing_splits_a_straddled_neighbor() {
    let mut runtime = fresh();
    assert!(runtime.split_property_block("layer-1", "raster", "block-1", 8).is_some());
    assert!(runtime.split_property_block("layer-1", "raster", "block-2", 16).is_some());
    // block-1 0..8, block-2 8..16, block-3 16..24, tail; move block-2 to 4..6
    // inside block-1, which keeps 0..4 and splits off 6..8 as block-4.
    let cut = DestructiveCut { trimmed: vec![(0, 0, 4), (0, 6, 2)], removed: Vec::new() };
    assert!(runtime.set_property_block_timing_destructive("layer-1", "raster", "block-2", 4, 2, &cut));
    assert_eq!(
        shape(&runtime, "raster"),
        vec![(0, 4, false), (4, 6, false), (6, 8, false), (8, 16, true), (16, 24, false), (24, 25, true)]
    );
    let track = runtime.property_track("layer-1", "raster").unwrap();
    assert_eq!(track.blocks[2].id, "block-4");
    assert_eq!(runtime.block_canvas("layer-1", "block-4").map(|c| c.len()), Some(0));
}

#[test]
fn destructive_timing_of_a_missing_block_changes_nothing() {
    let mut runtime = fresh();
    let cut = DestructiveCut { trimmed: Vec::new(), removed: Vec::new() };
    assert!(!runtime.set_property_block_timing_destructive("layer-1", "raster", "block-9", 0, 4, &cut));
    assert!(!runtime.set_property_block_timing_destructive("layer-9", "raster", "block-1", 0, 4, &cut));
    assert_eq!(shape(&runtime, "raster"), vec![(0, 24, false), (24, 25, true)]);
}

#[test]
fn a_retile_names_its_blanks_after_the_blocks_before_them() {
    let blocks = vec![block("block-1", 0, 4, false), block("block-2", 8, 4, false), block("tail", 24, 1, true)];
    let out = retiled_property_track(blocks, 0, 24);
    let ids: Vec<&str> = out.iter().map(|b| b.id.as_str()).collect();
    // The first gap takes the next free id after block-1, with an x since
    // block-2 is taken; the trailing gap takes block-3 and the old tail
    // merges into it.
    assert_eq!(ids, vec!["block-1", "block-2x", "block-2", "block-3"]);
}

#[test]
fn the_trailing_blank_follows_a_solid_past_the_span_by_one_breath() {
    let blocks = vec![block("block-1", 0, 30, false)];
    let out = retiled_property_track(blocks, 0, 24);
    let got: Vec<(&str, u32, u32, bool)> =
        out.iter().map(|b| (b.id.as_str(), b.start_breath, b.start_breath + b.length_breaths, b.is_blank)).collect();
    assert_eq!(got, vec![("block-1", 0, 30, false), ("tail", 30, 31, true)]);
}
