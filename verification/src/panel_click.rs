//! What a click on the layers panel does, by the row it lands on and the
//! column within it, and how a loop-window drag previews its span. The
//! panel's geometry (which row is under the pointer, which breath a column
//! shows, whether a property bar or the loop window is hit) comes in as
//! plain values.

use vstd::prelude::*;
use crate::layers_panel::{LayersPanelAction, PointerButton, PropertyDragMode, PropertyTimingResolution, PropertyBlockHit};
use crate::text::str_eq;

verus! {

/// Column of the visibility toggle in a layer row.
pub const COL_VISIBLE: i32 = 1;
/// Column of the lock toggle in a layer row.
pub const COL_LOCK: i32 = 3;
/// Column of the delete button in a layer row.
pub const COL_DELETE: i32 = 5;
/// First column of the name area in a layer row.
pub const COL_NAME: i32 = 9;
/// Last column of the PLAY button left of the loop bar.
pub const PLAY_BUTTON_END: i32 = 8;
/// First column of the LOOP button left of the loop bar.
pub const LOOP_BUTTON_START: i32 = 10;
/// Last column of the LOOP button left of the loop bar.
pub const LOOP_BUTTON_END: i32 = 17;

/// The row a click lands on, with the ids a layer or property row carries.
#[derive(Debug, PartialEq, Eq)]
pub enum ClickedRow {
    AutoKeyToggle,
    BreathRuler,
    LoopBar,
    AddLayer,
    Layer(String),
    Property(String, String),
}

/// What a click does.
#[derive(Debug, PartialEq, Eq)]
pub enum ClickOutcome {
    /// Nothing happens.
    Nothing,
    /// The panel queues an action.
    Queue(LayersPanelAction),
    /// The ruler jumps to a breath and scrubbing starts.
    Scrub(u32),
    /// A drag of the loop window starts (the window was hit in the timeline).
    LoopDrag,
    /// The click lands on a property bar: the bar's own click handling runs.
    PropertyBar,
    /// An inline rename of the layer starts.
    StartRename(String),
}

/// What a click does: `local_x` is its column, `timeline_start` the first
/// timeline column, `breath` the breath under the column, `loop_hit`
/// whether the loop window is under the pointer, `bar_hit` whether a
/// property bar is, and `double_click` whether this click completes a
/// double-click on the layer's name.
pub open spec fn click_outcome_spec(
    row: ClickedRow,
    local_x: i32,
    timeline_start: i32,
    button: PointerButton,
    breath: u32,
    loop_hit: bool,
    bar_hit: bool,
    double_click: bool,
) -> ClickOutcome {
    let left = button == PointerButton::Left;
    match row {
        ClickedRow::AutoKeyToggle => if left { ClickOutcome::Queue(LayersPanelAction::ToggleAutoKey) } else { ClickOutcome::Nothing },
        ClickedRow::BreathRuler => if left { ClickOutcome::Scrub(breath) } else { ClickOutcome::Nothing },
        ClickedRow::LoopBar => if local_x < timeline_start {
            if left && 1 <= local_x <= PLAY_BUTTON_END {
                ClickOutcome::Queue(LayersPanelAction::TogglePlay)
            } else if left && LOOP_BUTTON_START <= local_x <= LOOP_BUTTON_END {
                ClickOutcome::Queue(LayersPanelAction::ToggleLoop)
            } else {
                ClickOutcome::Nothing
            }
        } else if loop_hit {
            ClickOutcome::LoopDrag
        } else {
            ClickOutcome::Nothing
        },
        ClickedRow::AddLayer => if left { ClickOutcome::Queue(LayersPanelAction::AddRequested) } else { ClickOutcome::Nothing },
        ClickedRow::Layer(id) => if !left {
            ClickOutcome::Nothing
        } else if local_x == COL_VISIBLE {
            ClickOutcome::Queue(LayersPanelAction::ToggleVisible(id))
        } else if local_x == COL_LOCK {
            ClickOutcome::Queue(LayersPanelAction::ToggleLocked(id))
        } else if local_x == COL_DELETE {
            ClickOutcome::Queue(LayersPanelAction::Delete(id))
        } else if COL_NAME <= local_x < timeline_start - 1 && double_click {
            ClickOutcome::StartRename(id)
        } else {
            ClickOutcome::Queue(LayersPanelAction::Select(id))
        },
        ClickedRow::Property(layer_id, property_id) => if bar_hit {
            ClickOutcome::PropertyBar
        } else if left {
            ClickOutcome::Queue(LayersPanelAction::SelectProperty(layer_id, property_id))
        } else {
            ClickOutcome::Nothing
        },
    }
}

/// Whether the double-click timing seam should be told of this click: a
/// left click on a layer's name area that no toggle column took.
pub open spec fn name_click(row: ClickedRow, local_x: i32, timeline_start: i32, button: PointerButton) -> bool {
    &&& row is Layer
    &&& button == PointerButton::Left
    &&& local_x != COL_VISIBLE && local_x != COL_LOCK && local_x != COL_DELETE
    &&& COL_NAME <= local_x < timeline_start - 1
}

/// Routes a click on the layers panel.
pub fn click_outcome(
    row: ClickedRow,
    local_x: i32,
    timeline_start: i32,
    button: PointerButton,
    breath: u32,
    loop_hit: bool,
    bar_hit: bool,
    double_click: bool,
) -> (r: ClickOutcome)
    requires
        timeline_start > i32::MIN,
    ensures
        r == click_outcome_spec(row, local_x, timeline_start, button, breath, loop_hit, bar_hit, double_click),
{
    let left = match button {
        PointerButton::Left => true,
        PointerButton::Right => false,
    };
    match row {
        ClickedRow::AutoKeyToggle => if left { ClickOutcome::Queue(LayersPanelAction::ToggleAutoKey) } else { ClickOutcome::Nothing },
        ClickedRow::BreathRuler => if left { ClickOutcome::Scrub(breath) } else { ClickOutcome::Nothing },
        ClickedRow::LoopBar => if local_x < timeline_start {
            if left && 1 <= local_x && local_x <= PLAY_BUTTON_END {
                ClickOutcome::Queue(LayersPanelAction::TogglePlay)
            } else if left && LOOP_BUTTON_START <= local_x && local_x <= LOOP_BUTTON_END {
                ClickOutcome::Queue(LayersPanelAction::ToggleLoop)
            } else {
                ClickOutcome::Nothing
            }
        } else if loop_hit {
            ClickOutcome::LoopDrag
        } else {
            ClickOutcome::Nothing
        },
        ClickedRow::AddLayer => if left { ClickOutcome::Queue(LayersPanelAction::AddRequested) } else { ClickOutcome::Nothing },
        ClickedRow::Layer(id) => if !left {
            ClickOutcome::Nothing
        } else if local_x == COL_VISIBLE {
            ClickOutcome::Queue(LayersPanelAction::ToggleVisible(id))
        } else if local_x == COL_LOCK {
            ClickOutcome::Queue(LayersPanelAction::ToggleLocked(id))
        } else if local_x == COL_DELETE {
            ClickOutcome::Queue(LayersPanelAction::Delete(id))
        } else if COL_NAME <= local_x && local_x < timeline_start - 1 && double_click {
            ClickOutcome::StartRename(id)
        } else {
            ClickOutcome::Queue(LayersPanelAction::Select(id))
        },
        ClickedRow::Property(layer_id, property_id) => if bar_hit {
            ClickOutcome::PropertyBar
        } else if left {
            ClickOutcome::Queue(LayersPanelAction::SelectProperty(layer_id, property_id))
        } else {
            ClickOutcome::Nothing
        },
    }
}

/// Whether a click ends an open rename: every click does, except one on the
/// renaming layer's own row at or right of its name area.
pub fn click_ends_rename(renaming: bool, on_renaming_row: bool, local_x: i32) -> (r: bool)
    ensures
        r == (renaming && !(on_renaming_row && local_x >= COL_NAME)),
{
    renaming && !(on_renaming_row && local_x >= COL_NAME)
}

/// How a drag of the loop window reshapes it.
#[derive(Debug, Clone, Copy, PartialEq, Eq, Structural)]
pub enum LoopWindowDragMode {
    Move,
    TrimStart,
    TrimEnd,
}

/// The loop window a drag previews, from its span when the drag started,
/// the breath the drag started on and the breath under the pointer: a move
/// keeps the length and stops at breath 0; a start trim stays within 0 and
/// the end; an end trim stays at or after the start.
pub open spec fn loop_preview_spec(mode: LoopWindowDragMode, orig_start: u32, orig_end: u32, anchor: u32, current: u32) -> (int, int) {
    let delta = current - anchor;
    match mode {
        LoopWindowDragMode::Move => {
            let s = if orig_start + delta < 0 { 0 } else { orig_start + delta };
            (s, s + (orig_end - orig_start))
        },
        LoopWindowDragMode::TrimStart => {
            let s = if orig_start + delta < 0 { 0 } else if orig_start + delta > orig_end { orig_end as int } else { orig_start + delta };
            (s, orig_end as int)
        },
        LoopWindowDragMode::TrimEnd => {
            let e = if orig_end + delta < orig_start { orig_start as int } else { orig_end + delta };
            (orig_start as int, e)
        },
    }
}

/// The loop window a drag previews (see `loop_preview_spec`).
pub fn loop_window_preview(mode: LoopWindowDragMode, orig_start: u32, orig_end: u32, anchor: u32, current: u32) -> (r: (u32, u32))
    requires
        orig_start <= orig_end,
        loop_preview_spec(mode, orig_start, orig_end, anchor, current).1 <= u32::MAX,
    ensures
        r.0 == loop_preview_spec(mode, orig_start, orig_end, anchor, current).0,
        r.1 == loop_preview_spec(mode, orig_start, orig_end, anchor, current).1,
{
    let delta: i64 = current as i64 - anchor as i64;
    match mode {
        LoopWindowDragMode::Move => {
            let length = orig_end - orig_start;
            let moved: i64 = orig_start as i64 + delta;
            let s: u32 = if moved < 0 { 0 } else { moved as u32 };
            (s, s + length)
        },
        LoopWindowDragMode::TrimStart => {
            let moved: i64 = orig_start as i64 + delta;
            let s: u32 = if moved < 0 { 0 } else if moved > orig_end as i64 { orig_end } else { moved as u32 };
            (s, orig_end)
        },
        LoopWindowDragMode::TrimEnd => {
            let moved: i64 = orig_end as i64 + delta;
            let e: u32 = if moved < orig_start as i64 { orig_start } else { moved as u32 };
            (orig_start, e)
        },
    }
}


/// The loop window a drag previews follows the pointer by the drag's
/// offset `current - anchor`: a start trim moves the start by exactly the
/// offset while that keeps it within breath 0 and the end (else it stops
/// at that bound) and keeps the end; an end trim moves the end by the
/// offset while that keeps it at or after the start (else it stops at the
/// start) and keeps the start; a move shifts both edges by the offset while
/// the start stays at or after breath 0 (else the window starts at 0) and
/// always keeps the length. A drag back to where it started previews the
/// window it started from.
pub proof fn law_loop_window_follows_the_pointer(mode: LoopWindowDragMode, orig_start: u32, orig_end: u32, anchor: u32, current: u32)
    requires
        orig_start <= orig_end,
    ensures
        ({
            let p = loop_preview_spec(mode, orig_start, orig_end, anchor, current);
            let d = current - anchor;
            &&& (mode == LoopWindowDragMode::TrimStart ==> {
                &&& p.1 == orig_end
                &&& 0 <= p.0 <= orig_end
                &&& (0 <= orig_start + d <= orig_end ==> p.0 == orig_start + d)
                &&& (orig_start + d < 0 ==> p.0 == 0)
                &&& (orig_start + d > orig_end ==> p.0 == orig_end)
            })
            &&& (mode == LoopWindowDragMode::TrimEnd ==> {
                &&& p.0 == orig_start
                &&& p.1 >= orig_start
                &&& (orig_end + d >= orig_start ==> p.1 == orig_end + d)
                &&& (orig_end + d < orig_start ==> p.1 == orig_start)
            })
            &&& (mode == LoopWindowDragMode::Move ==> {
                &&& p.1 - p.0 == orig_end - orig_start
                &&& p.0 >= 0
                &&& (orig_start + d >= 0 ==> p.0 == orig_start + d && p.1 == orig_end + d)
                &&& (orig_start + d < 0 ==> p.0 == 0)
            })
            &&& (current == anchor ==> p == (orig_start as int, orig_end as int))
        }),
{
}

/// How a drag of a layer's own timeline bar reshapes it.
#[derive(Debug, Clone, Copy, PartialEq, Eq, Structural)]
pub enum BarDragMode {
    Move,
    TrimStart,
    TrimEnd,
}

/// The span a bar drag asks for, from the bar's span when the drag started
/// (`orig_start`, `orig_length`), the breath the drag started on and the
/// breath under the pointer: a move keeps the length and stops at breath 0;
/// a start trim keeps the last breath and at least one breath; an end trim
/// keeps the start and at least one breath. A dynamic resize trims the
/// start while the pointer is before the anchor and the end otherwise.
pub open spec fn drag_span_spec(mode: PropertyDragMode, orig_start: u32, orig_length: u32, anchor: u32, current: u32) -> (int, int) {
    let delta = current - anchor;
    let last = orig_start + orig_length - 1;
    let moved = orig_start + delta;
    let start_from_zero = if moved < 0 { 0 } else { moved };
    match mode {
        PropertyDragMode::Move => (start_from_zero, orig_length as int),
        PropertyDragMode::TrimStart => {
            let s = if moved < 0 { 0 } else if moved > last { last } else { moved };
            (s, orig_start + orig_length - s)
        },
        PropertyDragMode::DynamicResize => if current < anchor {
            (start_from_zero, last - start_from_zero + 1)
        } else {
            let e = if last + delta < orig_start { orig_start as int } else { last + delta };
            (orig_start as int, e - orig_start + 1)
        },
        _ => {
            let e = if last + delta < orig_start { orig_start as int } else { last + delta };
            (orig_start as int, e - orig_start + 1)
        },
    }
}

/// The property drag mode a bar drag mode reshapes like.
pub open spec fn bar_as_property(mode: BarDragMode) -> PropertyDragMode {
    match mode {
        BarDragMode::Move => PropertyDragMode::Move,
        BarDragMode::TrimStart => PropertyDragMode::TrimStart,
        BarDragMode::TrimEnd => PropertyDragMode::TrimEnd,
    }
}

/// A drag's span fits the breath range and its arithmetic stays in range.
pub open spec fn drag_span_fits(mode: PropertyDragMode, orig_start: u32, orig_length: u32, anchor: u32, current: u32) -> bool {
    &&& orig_start + orig_length <= u32::MAX
    &&& (mode != PropertyDragMode::Move ==> orig_start + orig_length >= 1)
    &&& drag_span_spec(mode, orig_start, orig_length, anchor, current).0 <= u32::MAX
    &&& drag_span_spec(mode, orig_start, orig_length, anchor, current).1 <= u32::MAX
}

fn span_for(mode: PropertyDragMode, orig_start: u32, orig_length: u32, anchor: u32, current: u32) -> (r: (u32, u32))
    requires
        mode != PropertyDragMode::Swap,
        drag_span_fits(mode, orig_start, orig_length, anchor, current),
    ensures
        r.0 == drag_span_spec(mode, orig_start, orig_length, anchor, current).0,
        r.1 == drag_span_spec(mode, orig_start, orig_length, anchor, current).1,
{
    let delta: i64 = current as i64 - anchor as i64;
    let moved: i64 = orig_start as i64 + delta;
    let start_from_zero: i64 = if moved < 0 { 0 } else { moved };
    match mode {
        PropertyDragMode::Move => (start_from_zero as u32, orig_length),
        PropertyDragMode::TrimStart => {
            let last: i64 = orig_start as i64 + orig_length as i64 - 1;
            let s: i64 = if moved < 0 { 0 } else if moved > last { last } else { moved };
            (s as u32, (orig_start as i64 + orig_length as i64 - s) as u32)
        },
        PropertyDragMode::DynamicResize => {
            let last: i64 = orig_start as i64 + orig_length as i64 - 1;
            if (current as i64) < (anchor as i64) {
                (start_from_zero as u32, (last - start_from_zero + 1) as u32)
            } else {
                let e: i64 = if last + delta < orig_start as i64 { orig_start as i64 } else { last + delta };
                (orig_start, (e - orig_start as i64 + 1) as u32)
            }
        },
        _ => {
            let last: i64 = orig_start as i64 + orig_length as i64 - 1;
            let e: i64 = if last + delta < orig_start as i64 { orig_start as i64 } else { last + delta };
            (orig_start, (e - orig_start as i64 + 1) as u32)
        },
    }
}

/// The span a drag of a layer's timeline bar asks for (see `drag_span_spec`).
pub fn bar_drag_span(mode: BarDragMode, orig_start: u32, orig_length: u32, anchor: u32, current: u32) -> (r: (u32, u32))
    requires
        drag_span_fits(bar_as_property(mode), orig_start, orig_length, anchor, current),
    ensures
        r.0 == drag_span_spec(bar_as_property(mode), orig_start, orig_length, anchor, current).0,
        r.1 == drag_span_spec(bar_as_property(mode), orig_start, orig_length, anchor, current).1,
{
    let m = match mode {
        BarDragMode::Move => PropertyDragMode::Move,
        BarDragMode::TrimStart => PropertyDragMode::TrimStart,
        BarDragMode::TrimEnd => PropertyDragMode::TrimEnd,
    };
    span_for(m, orig_start, orig_length, anchor, current)
}

/// The span a property-bar drag asks for while it previews; `None` for a
/// swap, which tracks its target instead.
pub fn property_drag_span(mode: PropertyDragMode, orig_start: u32, orig_length: u32, anchor: u32, current: u32) -> (r: Option<(u32, u32)>)
    requires
        mode != PropertyDragMode::Swap ==> drag_span_fits(mode, orig_start, orig_length, anchor, current),
    ensures
        mode == PropertyDragMode::Swap ==> r is None,
        mode != PropertyDragMode::Swap ==> r is Some
            && (r->0).0 == drag_span_spec(mode, orig_start, orig_length, anchor, current).0
            && (r->0).1 == drag_span_spec(mode, orig_start, orig_length, anchor, current).1,
{
    match mode {
        PropertyDragMode::Swap => None,
        _ => Some(span_for(mode, orig_start, orig_length, anchor, current)),
    }
}

/// The bar a swap drag would swap with: the hovered bar, when it is another
/// bar of the dragged track.
pub open spec fn swap_target_spec(hover: Option<PropertyBlockHit>, layer_id: Seq<char>, property_id: Seq<char>, block_id: Seq<char>) -> Option<Seq<char>> {
    match hover {
        Some(h) => if h.layer_id@ == layer_id && h.property_id@ == property_id && h.block_id@ != block_id {
            Some(h.block_id@)
        } else {
            None
        },
        None => None,
    }
}

/// The bar a swap drag would swap with (see `swap_target_spec`).
pub fn swap_target(hover: &Option<PropertyBlockHit>, layer_id: &str, property_id: &str, block_id: &str) -> (r: Option<String>)
    ensures
        (match r { Some(t) => Some(t@), None => None }) == swap_target_spec(*hover, layer_id@, property_id@, block_id@),
{
    match hover {
        Some(h) => {
            if str_eq(h.layer_id.as_str(), layer_id) && str_eq(h.property_id.as_str(), property_id)
                && !str_eq(h.block_id.as_str(), block_id) {
                Some(crate::text::owned(h.block_id.as_str()))
            } else {
                None
            }
        },
        None => None,
    }
}

/// What releasing a property-bar drag commits: a swap with its target when
/// it has one, otherwise the last previewed span under the drag's timing
/// rule; nothing when a swap is over no bar or no span was previewed.
pub open spec fn release_action_spec(
    mode: PropertyDragMode,
    resolution: PropertyTimingResolution,
    layer_id: String,
    property_id: String,
    block_id: String,
    swap_target: Option<String>,
    last_requested: Option<(u32, u32)>,
) -> Option<LayersPanelAction> {
    if mode == PropertyDragMode::Swap {
        match swap_target {
            Some(t) => Some(LayersPanelAction::SwapPropertyBlocks(layer_id, property_id, block_id, t)),
            None => None,
        }
    } else {
        match last_requested {
            Some((start, length)) => Some(if resolution == PropertyTimingResolution::Pushed {
                LayersPanelAction::SetPropertyBlockTimingPushed(layer_id, property_id, block_id, start, length)
            } else {
                LayersPanelAction::SetPropertyBlockTimingDestructive(layer_id, property_id, block_id, start, length)
            }),
            None => None,
        }
    }
}

/// The one action a property-bar drag commits on release; the drag itself
/// only previews (see `release_action_spec`).
pub fn release_action(
    mode: PropertyDragMode,
    resolution: PropertyTimingResolution,
    layer_id: String,
    property_id: String,
    block_id: String,
    swap_target: Option<String>,
    last_requested: Option<(u32, u32)>,
) -> (r: Option<LayersPanelAction>)
    ensures
        r == release_action_spec(mode, resolution, layer_id, property_id, block_id, swap_target, last_requested),
{
    match mode {
        PropertyDragMode::Swap => match swap_target {
            Some(t) => Some(LayersPanelAction::SwapPropertyBlocks(layer_id, property_id, block_id, t)),
            None => None,
        },
        _ => match last_requested {
            Some((start, length)) => Some(match resolution {
                PropertyTimingResolution::Pushed =>
                    LayersPanelAction::SetPropertyBlockTimingPushed(layer_id, property_id, block_id, start, length),
                PropertyTimingResolution::Destructive =>
                    LayersPanelAction::SetPropertyBlockTimingDestructive(layer_id, property_id, block_id, start, length),
            }),
            None => None,
        },
    }
}

/// What releasing a loop-window drag commits: the previewed window, its end
/// at least its start.
pub fn loop_release_action(preview_start: u32, preview_end: u32) -> (r: LayersPanelAction)
    ensures
        r == LayersPanelAction::SetLoopWindow(preview_start, if preview_end < preview_start { preview_start } else { preview_end }),
{
    LayersPanelAction::SetLoopWindow(preview_start, if preview_end < preview_start { preview_start } else { preview_end })
}

} // verus!
