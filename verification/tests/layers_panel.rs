use painter_domain::layers_panel::{
    content_head_merge_span, property_block_double_click_action, property_track_cell_graphic,
    resolve_property_drag_mode, BarPiece, CellType, LayerPropertyKind, LayerRow, LayersPanelAction,
    LayersPanelState, PointerButton, PropertyBlockHit, PropertyDragMode, PropertyTimingResolution,
    PropertyTrackBlock, PropertyTrackRow, INTERACTION_LOG_CAP,
};

fn block(id: &str, start_breath: u32, length_breaths: u32, is_blank: bool) -> PropertyTrackBlock {
    PropertyTrackBlock {
        id: id.to_string(),
        start_breath,
        length_breaths,
        is_blank,
        interp_mode: None,
        ease_out_percent: None,
        ease_in_percent: None,
    }
}

fn raster_row(blocks: Vec<PropertyTrackBlock>) -> PropertyTrackRow {
    PropertyTrackRow {
        layer_id: "layer-1".to_string(),
        property_id: "raster".to_string(),
        label: "RASTER".to_string(),
        kind: LayerPropertyKind::Raster,
        blocks,
    }
}

fn hit(block_id: &str, breath: u32, piece: BarPiece, cell_type: CellType) -> PropertyBlockHit {
    PropertyBlockHit {
        layer_id: "layer-1".to_string(),
        property_id: "raster".to_string(),
        block_id: block_id.to_string(),
        breath,
        piece,
        cell_type,
    }
}

fn row(id: &str, name: &str, start_breath: u32, length_breaths: u32) -> LayerRow {
    LayerRow {
        id: id.to_string(),
        name: name.to_string(),
        visible: true,
        locked: false,
        start_breath,
        length_breaths,
    }
}

#[test]
fn raster_property_blocks_use_solid_endcaps_and_new_empty_graphics() {
    assert_eq!(property_track_cell_graphic(false, true, 1, 0), '█');
    assert_eq!(property_track_cell_graphic(false, true, 2, 0), '█');
    assert_eq!(property_track_cell_graphic(false, true, 2, 1), '▦');
    assert_eq!(property_track_cell_graphic(false, true, 4, 1), '▥');
    // Empty heads, centers and singles.
    assert_eq!(property_track_cell_graphic(true, true, 1, 0), '▪');
    assert_eq!(property_track_cell_graphic(true, true, 2, 0), '◧');
    assert_eq!(property_track_cell_graphic(true, true, 2, 1), '◨');
    assert_eq!(property_track_cell_graphic(true, true, 4, 1), '▪');
}

#[test]
fn hidden_property_blocks_use_old_system_hidden_caps_and_midsections() {
    assert_eq!(property_track_cell_graphic(false, false, 1, 0), '▒');
    assert_eq!(property_track_cell_graphic(false, false, 2, 0), '╺');
    assert_eq!(property_track_cell_graphic(false, false, 2, 1), '╸');
    assert_eq!(property_track_cell_graphic(false, false, 4, 1), '╌');
}

#[test]
fn cells_past_the_bar_end_read_as_its_last_cell() {
    assert_eq!(property_track_cell_graphic(false, true, 3, 7), '▦');
    assert_eq!(property_track_cell_graphic(false, true, 0, 0), '█');
    assert_eq!(property_track_cell_graphic(false, true, 5, u32::MAX), '▦');
}

#[test]
fn sync_mirrors_the_document_and_keeps_the_pending_action() {
    let mut state = LayersPanelState::default();
    state.queue_action(LayersPanelAction::AddRequested);
    state.sync(
        vec![row("layer-1", "Layer 1", 0, 5), row("layer-2", "Layer 2", 2, 1)],
        vec![raster_row(vec![block("block-1", 0, 5, false)])],
        Some("layer-1".to_string()),
        Some("raster".to_string()),
        3,
        true,
        0,
        23,
        false,
        true,
    );
    assert_eq!(state.rows.len(), 2);
    assert_eq!(state.rows[1].name, "Layer 2");
    assert_eq!(state.property_rows[0].blocks[0].id, "block-1");
    assert_eq!(state.selected_id.as_deref(), Some("layer-1"));
    assert_eq!(state.current_breath, 3);
    assert!(state.auto_key_enabled);
    assert_eq!((state.loop_window_start, state.loop_window_end), (0, 23));
    assert!(!state.playing);
    assert!(state.loop_enabled);
    assert_eq!(state.take_pending_action(), Some(LayersPanelAction::AddRequested));
}

#[test]
fn a_queued_action_is_taken_once_and_a_later_one_replaces_it() {
    let mut state = LayersPanelState::default();
    assert_eq!(state.take_pending_action(), None);
    state.queue_action(LayersPanelAction::Select("layer-1".to_string()));
    state.queue_action(LayersPanelAction::ToggleVisible("layer-2".to_string()));
    assert_eq!(
        state.take_pending_action(),
        Some(LayersPanelAction::ToggleVisible("layer-2".to_string()))
    );
    assert_eq!(state.take_pending_action(), None);
}

#[test]
fn the_interaction_log_drains_in_order_and_keeps_only_the_newest_lines() {
    let mut state = LayersPanelState::default();
    state.log_interaction("first".to_string());
    state.log_interaction("second".to_string());
    assert_eq!(state.take_interaction_log(), vec!["first".to_string(), "second".to_string()]);
    assert!(state.take_interaction_log().is_empty());

    for index in 0..(INTERACTION_LOG_CAP + 5) {
        state.log_interaction(format!("line {index}"));
    }
    let log = state.take_interaction_log();
    assert_eq!(log.len(), INTERACTION_LOG_CAP);
    assert_eq!(log[0], "line 5");
    assert_eq!(log[INTERACTION_LOG_CAP - 1], format!("line {}", INTERACTION_LOG_CAP + 4));
}

#[test]
fn heads_trim_pushed_on_left_and_destructive_on_right() {
    for cell_type in [CellType::Solid, CellType::Empty] {
        let left_head = hit("block-1", 0, BarPiece::LeftHead, cell_type);
        assert_eq!(
            resolve_property_drag_mode(&left_head, PointerButton::Left),
            Some((PropertyDragMode::TrimStart, PropertyTimingResolution::Pushed))
        );
        assert_eq!(
            resolve_property_drag_mode(&left_head, PointerButton::Right),
            Some((PropertyDragMode::TrimStart, PropertyTimingResolution::Destructive))
        );
        let right_head = hit("block-1", 4, BarPiece::RightHead, cell_type);
        assert_eq!(
            resolve_property_drag_mode(&right_head, PointerButton::Left),
            Some((PropertyDragMode::TrimEnd, PropertyTimingResolution::Pushed))
        );
        assert_eq!(
            resolve_property_drag_mode(&right_head, PointerButton::Right),
            Some((PropertyDragMode::TrimEnd, PropertyTimingResolution::Destructive))
        );
    }
}

#[test]
fn centers_swap_on_left_and_solid_centers_slide_on_right() {
    let solid = hit("block-1", 2, BarPiece::Center, CellType::Solid);
    assert_eq!(
        resolve_property_drag_mode(&solid, PointerButton::Left),
        Some((PropertyDragMode::Swap, PropertyTimingResolution::Destructive))
    );
    assert_eq!(
        resolve_property_drag_mode(&solid, PointerButton::Right),
        Some((PropertyDragMode::Move, PropertyTimingResolution::Destructive))
    );
    let empty = hit("block-1", 2, BarPiece::Center, CellType::Empty);
    assert_eq!(
        resolve_property_drag_mode(&empty, PointerButton::Left),
        Some((PropertyDragMode::Swap, PropertyTimingResolution::Destructive))
    );
    assert_eq!(resolve_property_drag_mode(&empty, PointerButton::Right), None);
}

#[test]
fn singles_move_or_resize_and_empty_singles_ignore_left() {
    let solid = hit("block-1", 2, BarPiece::Single, CellType::Solid);
    assert_eq!(
        resolve_property_drag_mode(&solid, PointerButton::Left),
        Some((PropertyDragMode::Move, PropertyTimingResolution::Destructive))
    );
    assert_eq!(
        resolve_property_drag_mode(&solid, PointerButton::Right),
        Some((PropertyDragMode::DynamicResize, PropertyTimingResolution::Destructive))
    );
    let empty = hit("block-1", 2, BarPiece::Single, CellType::Empty);
    assert_eq!(resolve_property_drag_mode(&empty, PointerButton::Left), None);
    assert_eq!(
        resolve_property_drag_mode(&empty, PointerButton::Right),
        Some((PropertyDragMode::DynamicResize, PropertyTimingResolution::Destructive))
    );
}

#[test]
fn double_clicks_on_solid_bars_split_duplicate_or_blank() {
    let rows = vec![raster_row(vec![block("block-1", 0, 8, false), block("block-2", 8, 1, false)])];
    assert_eq!(
        property_block_double_click_action(&rows, &hit("block-1", 5, BarPiece::Center, CellType::Solid), PointerButton::Left),
        Some(LayersPanelAction::SplitPropertyBlock("layer-1".to_string(), "raster".to_string(), "block-1".to_string(), 5))
    );
    assert_eq!(
        property_block_double_click_action(&rows, &hit("block-2", 8, BarPiece::Single, CellType::Solid), PointerButton::Left),
        Some(LayersPanelAction::DuplicatePropertyBlock("layer-1".to_string(), "raster".to_string(), "block-2".to_string()))
    );
    assert_eq!(
        property_block_double_click_action(&rows, &hit("block-1", 5, BarPiece::Center, CellType::Solid), PointerButton::Right),
        Some(LayersPanelAction::BlankPropertyBlock("layer-1".to_string(), "raster".to_string(), "block-1".to_string()))
    );
    // Double-left on a solid head does nothing.
    assert_eq!(
        property_block_double_click_action(&rows, &hit("block-1", 0, BarPiece::LeftHead, CellType::Solid), PointerButton::Left),
        None
    );
}

#[test]
fn double_right_on_a_solid_head_merges_the_neighbour_in_or_rejects_at_the_edge() {
    let rows = vec![raster_row(vec![
        block("block-1", 0, 8, false),
        block("block-2", 8, 4, false),
        block("tail", 12, 1, true),
    ])];
    // Right head of block-1: the bar on the right (8..12) merges in.
    assert_eq!(
        property_block_double_click_action(&rows, &hit("block-1", 7, BarPiece::RightHead, CellType::Solid), PointerButton::Right),
        Some(LayersPanelAction::SetPropertyBlockTimingDestructive(
            "layer-1".to_string(), "raster".to_string(), "block-1".to_string(), 0, 12
        ))
    );
    // Left head of block-2: the bar on the left (0..8) merges in.
    assert_eq!(
        property_block_double_click_action(&rows, &hit("block-2", 8, BarPiece::LeftHead, CellType::Solid), PointerButton::Right),
        Some(LayersPanelAction::SetPropertyBlockTimingDestructive(
            "layer-1".to_string(), "raster".to_string(), "block-2".to_string(), 0, 12
        ))
    );
    // Left head of block-1 sits at the span edge: nothing to merge.
    assert_eq!(
        property_block_double_click_action(&rows, &hit("block-1", 0, BarPiece::LeftHead, CellType::Solid), PointerButton::Right),
        None
    );
    assert_eq!(content_head_merge_span(&rows, &hit("block-1", 0, BarPiece::LeftHead, CellType::Solid), false), None);
    assert_eq!(content_head_merge_span(&rows, &hit("missing", 0, BarPiece::LeftHead, CellType::Solid), true), None);
}

#[test]
fn double_clicks_on_empties_merge_on_right_and_keyframe_on_left() {
    let rows = vec![raster_row(vec![block("block-1", 0, 8, false), block("tail", 8, 4, true)])];
    let l = "layer-1".to_string();
    let p = "raster".to_string();
    let b = "tail".to_string();
    assert_eq!(
        property_block_double_click_action(&rows, &hit("tail", 9, BarPiece::Center, CellType::Empty), PointerButton::Right),
        Some(LayersPanelAction::MergeEmptyPropertyBlock(l.clone(), p.clone(), b.clone(), true))
    );
    assert_eq!(
        property_block_double_click_action(&rows, &hit("tail", 11, BarPiece::RightHead, CellType::Empty), PointerButton::Right),
        Some(LayersPanelAction::MergeEmptyPropertyBlock(l.clone(), p.clone(), b.clone(), false))
    );
    assert_eq!(
        property_block_double_click_action(&rows, &hit("tail", 9, BarPiece::Center, CellType::Empty), PointerButton::Left),
        Some(LayersPanelAction::CycleEmptyInterpMode(l.clone(), p.clone(), b.clone()))
    );
    assert_eq!(
        property_block_double_click_action(&rows, &hit("tail", 8, BarPiece::LeftHead, CellType::Empty), PointerButton::Left),
        Some(LayersPanelAction::CycleEmptyEaseOut(l.clone(), p.clone(), b.clone()))
    );
    assert_eq!(
        property_block_double_click_action(&rows, &hit("tail", 11, BarPiece::RightHead, CellType::Empty), PointerButton::Left),
        Some(LayersPanelAction::CycleEmptyEaseIn(l, p, b))
    );
}
