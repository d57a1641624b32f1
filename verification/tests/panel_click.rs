use painter_domain::layers_panel::{LayersPanelAction, PointerButton};
use painter_domain::panel_click::{
    click_ends_rename, click_outcome, loop_window_preview, ClickOutcome, ClickedRow, LoopWindowDragMode,
};

fn layer() -> ClickedRow {
    ClickedRow::Layer("layer-1".to_string())
}

#[test]
fn layer_row_columns_queue_their_toggles() {
    let left = PointerButton::Left;
    assert_eq!(
        click_outcome(layer(), 1, 30, left, 0, false, false, false),
        ClickOutcome::Queue(LayersPanelAction::ToggleVisible("layer-1".to_string()))
    );
    assert_eq!(
        click_outcome(layer(), 3, 30, left, 0, false, false, false),
        ClickOutcome::Queue(LayersPanelAction::ToggleLocked("layer-1".to_string()))
    );
    assert_eq!(
        click_outcome(layer(), 5, 30, left, 0, false, false, false),
        ClickOutcome::Queue(LayersPanelAction::Delete("layer-1".to_string()))
    );
    assert_eq!(
        click_outcome(layer(), 12, 30, left, 0, false, false, false),
        ClickOutcome::Queue(LayersPanelAction::Select("layer-1".to_string()))
    );
    assert_eq!(
        click_outcome(layer(), 12, 30, left, 0, false, false, true),
        ClickOutcome::StartRename("layer-1".to_string())
    );
    // A double-click in the timeline space only selects.
    assert_eq!(
        click_outcome(layer(), 29, 30, left, 0, false, false, true),
        ClickOutcome::Queue(LayersPanelAction::Select("layer-1".to_string()))
    );
    assert_eq!(click_outcome(layer(), 1, 30, PointerButton::Right, 0, false, false, false), ClickOutcome::Nothing);
}

#[test]
fn transport_buttons_ruler_and_loop_bar() {
    let left = PointerButton::Left;
    assert_eq!(
        click_outcome(ClickedRow::LoopBar, 4, 30, left, 0, false, false, false),
        ClickOutcome::Queue(LayersPanelAction::TogglePlay)
    );
    assert_eq!(
        click_outcome(ClickedRow::LoopBar, 12, 30, left, 0, false, false, false),
        ClickOutcome::Queue(LayersPanelAction::ToggleLoop)
    );
    assert_eq!(click_outcome(ClickedRow::LoopBar, 9, 30, left, 0, false, false, false), ClickOutcome::Nothing);
    assert_eq!(click_outcome(ClickedRow::LoopBar, 40, 30, PointerButton::Right, 0, true, false, false), ClickOutcome::LoopDrag);
    assert_eq!(click_outcome(ClickedRow::BreathRuler, 40, 30, left, 7, false, false, false), ClickOutcome::Scrub(7));
    assert_eq!(
        click_outcome(ClickedRow::AddLayer, 2, 30, left, 0, false, false, false),
        ClickOutcome::Queue(LayersPanelAction::AddRequested)
    );
    assert_eq!(
        click_outcome(ClickedRow::AutoKeyToggle, 2, 30, left, 0, false, false, false),
        ClickOutcome::Queue(LayersPanelAction::ToggleAutoKey)
    );
    let property = || ClickedRow::Property("layer-1".to_string(), "raster".to_string());
    assert_eq!(click_outcome(property(), 40, 30, left, 0, false, true, false), ClickOutcome::PropertyBar);
    assert_eq!(
        click_outcome(property(), 40, 30, left, 0, false, false, false),
        ClickOutcome::Queue(LayersPanelAction::SelectProperty("layer-1".to_string(), "raster".to_string()))
    );
}

#[test]
fn clicks_end_a_rename_except_on_its_own_name() {
    assert!(!click_ends_rename(true, true, 12));
    assert!(click_ends_rename(true, true, 5));
    assert!(click_ends_rename(true, false, 12));
    assert!(!click_ends_rename(false, false, 12));
}

#[test]
fn loop_window_drags_move_and_trim_within_bounds() {
    assert_eq!(loop_window_preview(LoopWindowDragMode::Move, 4, 10, 6, 9), (7, 13));
    assert_eq!(loop_window_preview(LoopWindowDragMode::Move, 4, 10, 6, 0), (0, 6));
    assert_eq!(loop_window_preview(LoopWindowDragMode::TrimStart, 4, 10, 4, 20), (10, 10));
    assert_eq!(loop_window_preview(LoopWindowDragMode::TrimStart, 4, 10, 4, 2), (2, 10));
    assert_eq!(loop_window_preview(LoopWindowDragMode::TrimEnd, 4, 10, 10, 1), (4, 4));
    assert_eq!(loop_window_preview(LoopWindowDragMode::TrimEnd, 4, 10, 10, 15), (4, 15));
}
