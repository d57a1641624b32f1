use painter_domain::canvas::{Canvas, CellGraphic, CellPoint, PaintColor, PaintedCell};
use painter_domain::document::SharedDocumentFile;
use painter_domain::layers_panel::{
    BarPiece, CellType, LayersPanelAction, LayersPanelState, PropertyBlockHit, PropertyDragMode,
    PropertyTimingResolution,
};
use painter_domain::panel_click::{
    bar_drag_span, loop_release_action, property_drag_span, release_action, swap_target, BarDragMode,
};
use painter_domain::runtime::SharedDocumentRuntime;

#[test]
fn bar_drags_move_and_trim_their_span() {
    // The bar covers 10..15 (start 10, length 5); the drag started at breath 12.
    assert_eq!(bar_drag_span(BarDragMode::Move, 10, 5, 12, 15), (13, 5));
    assert_eq!(bar_drag_span(BarDragMode::Move, 10, 5, 12, 0), (0, 5));
    assert_eq!(bar_drag_span(BarDragMode::TrimStart, 10, 5, 12, 14), (12, 3));
    assert_eq!(bar_drag_span(BarDragMode::TrimStart, 10, 5, 12, 40), (14, 1));
    assert_eq!(bar_drag_span(BarDragMode::TrimEnd, 10, 5, 12, 16), (10, 9));
    assert_eq!(bar_drag_span(BarDragMode::TrimEnd, 10, 5, 12, 0), (10, 1));
}

#[test]
fn property_drags_preview_their_requested_span() {
    assert_eq!(property_drag_span(PropertyDragMode::Move, 4, 2, 4, 9), Some((9, 2)));
    assert_eq!(property_drag_span(PropertyDragMode::TrimStart, 4, 4, 4, 2), Some((2, 6)));
    assert_eq!(property_drag_span(PropertyDragMode::TrimEnd, 4, 4, 7, 9), Some((4, 6)));
    // A single-breath bar resized to the left grows its start, to the right its end.
    assert_eq!(property_drag_span(PropertyDragMode::DynamicResize, 8, 1, 8, 5), Some((5, 4)));
    assert_eq!(property_drag_span(PropertyDragMode::DynamicResize, 8, 1, 8, 11), Some((8, 4)));
    assert_eq!(property_drag_span(PropertyDragMode::Swap, 8, 1, 8, 11), None);
}

fn hit(layer: &str, property: &str, block: &str) -> PropertyBlockHit {
    PropertyBlockHit {
        layer_id: layer.to_string(),
        property_id: property.to_string(),
        block_id: block.to_string(),
        breath: 3,
        piece: BarPiece::Center,
        cell_type: CellType::Solid,
    }
}

#[test]
fn swap_targets_another_bar_of_the_same_track() {
    assert_eq!(swap_target(&Some(hit("layer-1", "raster", "block-2")), "layer-1", "raster", "block-1"), Some("block-2".to_string()));
    assert_eq!(swap_target(&Some(hit("layer-1", "raster", "block-1")), "layer-1", "raster", "block-1"), None);
    assert_eq!(swap_target(&Some(hit("layer-1", "move", "block-2")), "layer-1", "raster", "block-1"), None);
    assert_eq!(swap_target(&None, "layer-1", "raster", "block-1"), None);
}

#[test]
fn drags_commit_one_action_on_release() {
    let s = |v: &str| v.to_string();
    assert_eq!(
        release_action(PropertyDragMode::Move, PropertyTimingResolution::Destructive, s("l"), s("raster"), s("block-1"), None, Some((4, 2))),
        Some(LayersPanelAction::SetPropertyBlockTimingDestructive(s("l"), s("raster"), s("block-1"), 4, 2))
    );
    assert_eq!(
        release_action(PropertyDragMode::TrimStart, PropertyTimingResolution::Pushed, s("l"), s("raster"), s("block-1"), None, Some((1, 5))),
        Some(LayersPanelAction::SetPropertyBlockTimingPushed(s("l"), s("raster"), s("block-1"), 1, 5))
    );
    assert_eq!(
        release_action(PropertyDragMode::Move, PropertyTimingResolution::Pushed, s("l"), s("raster"), s("block-1"), None, None),
        None
    );
    assert_eq!(
        release_action(PropertyDragMode::Swap, PropertyTimingResolution::Destructive, s("l"), s("raster"), s("block-1"), Some(s("block-3")), None),
        Some(LayersPanelAction::SwapPropertyBlocks(s("l"), s("raster"), s("block-1"), s("block-3")))
    );
    assert_eq!(
        release_action(PropertyDragMode::Swap, PropertyTimingResolution::Destructive, s("l"), s("raster"), s("block-1"), None, Some((1, 1))),
        None
    );
    assert_eq!(loop_release_action(9, 4), LayersPanelAction::SetLoopWindow(9, 9));
    assert_eq!(loop_release_action(2, 4), LayersPanelAction::SetLoopWindow(2, 4));
}

fn cell(glyph: char) -> PaintedCell {
    PaintedCell { graphic: CellGraphic::Glyph(glyph), color: PaintColor::flat_rgb(1, 1, 1), weight_index: 0 }
}

#[test]
fn later_visible_layers_win_in_the_composite() {
    let mut runtime =
        SharedDocumentRuntime::new(SharedDocumentFile::single_layer("doc-1", "Doc", "layer-1", "Layer 1"));
    assert!(runtime.add_layer("layer-2", "Layer 2").is_some());
    let p = CellPoint { x: 1, y: 1, z: 0 };
    let q = CellPoint { x: 2, y: 1, z: 0 };
    let mut bottom = Canvas::new();
    bottom.insert(p, cell('a'));
    bottom.insert(q, cell('b'));
    let mut top = Canvas::new();
    top.insert(p, cell('c'));
    let composite = runtime.composited_canvas_in_layer_order(&vec![Some(bottom.copy()), Some(top.copy())]);
    assert_eq!(composite.get(p), Some(&cell('c')));
    assert_eq!(composite.get(q), Some(&cell('b')));
    assert!(runtime.set_layer_visible("layer-2", false));
    let composite = runtime.composited_canvas_in_layer_order(&vec![Some(bottom.copy()), Some(top.copy())]);
    assert_eq!(composite.get(p), Some(&cell('a')));
    let composite = runtime.composited_canvas_in_layer_order(&vec![None, None]);
    assert!(composite.is_empty());
}

#[test]
fn the_trace_keeps_its_newest_lines_and_drains() {
    let mut state = LayersPanelState::default();
    for i in 0..300 {
        state.log_interaction(format!("line {i}"));
    }
    let lines = state.take_interaction_log();
    assert_eq!(lines.len(), 256);
    assert_eq!(lines[0], "line 44");
    assert_eq!(lines[255], "line 299");
    assert!(state.take_interaction_log().is_empty());
}
