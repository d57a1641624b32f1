//! The layers panel's plain state and decisions: the rows it mirrors from
//! the document, the one pending action it hands to the caller, its
//! interaction trace, the glyph of each property-track cell, and what a
//! press or double click on a property bar asks for.

use vstd::prelude::*;
use crate::text::str_eq;
use crate::track::min1;

verus! {

#[derive(Debug, Clone, Copy, PartialEq, Eq, Structural)]
pub enum LayerPropertyKind {
    Raster,
    Move,
}

/// One bar of a property track as the panel shows it.
#[derive(Debug, Clone, Default, PartialEq, Eq)]
pub struct PropertyTrackBlock {
    pub id: String,
    pub start_breath: u32,
    pub length_breaths: u32,
    pub is_blank: bool,
    /// The empty's interpolation mode, raw from the document.
    pub interp_mode: Option<String>,
    /// Ease strengths for the empty's ends (percent steps; unset is linear).
    pub ease_out_percent: Option<u8>,
    pub ease_in_percent: Option<u8>,
}

#[derive(Debug, Clone, PartialEq, Eq)]
pub struct PropertyTrackRow {
    pub layer_id: String,
    pub property_id: String,
    pub label: String,
    pub kind: LayerPropertyKind,
    pub blocks: Vec<PropertyTrackBlock>,
}

/// One row of the layer list: a saved layer's id, name, visibility and
/// lock, and the breaths its own timeline bar covers.
#[derive(Debug, Clone, PartialEq, Eq)]
pub struct LayerRow {
    pub id: String,
    pub name: String,
    pub visible: bool,
    pub locked: bool,
    pub start_breath: u32,
    pub length_breaths: u32,
}

/// A user action requested through the panel, for the caller to apply to
/// the document and reflect back through `LayersPanelState::sync`.
#[derive(Debug, Clone, PartialEq, Eq)]
pub enum LayersPanelAction {
    Select(String),
    SelectProperty(String, String),
    AddRequested,
    ToggleVisible(String),
    ToggleLocked(String),
    Delete(String),
    Rename(String, String),
    ToggleAutoKey,
    SetCurrentBreath(u32),
    SetLayerTiming(String, u32, u32),
    SetPropertyBlockTiming(String, String, String, u32, u32),
    SetPropertyBlockTimingPushed(String, String, String, u32, u32),
    SetPropertyBlockTimingDestructive(String, String, String, u32, u32),
    BlankPropertyBlock(String, String, String),
    SwapPropertyBlocks(String, String, String, String),
    DuplicatePropertyBlock(String, String, String),
    SplitPropertyBlock(String, String, String, u32),
    MergeEmptyPropertyBlock(String, String, String, bool),
    CycleEmptyInterpMode(String, String, String),
    CycleEmptyEaseOut(String, String, String),
    CycleEmptyEaseIn(String, String, String),
    SetLoopWindow(u32, u32),
    TogglePlay,
    ToggleLoop,
}

/// The state shared between the panel and its caller: what the panel shows
/// (synced once per frame), the one action it has queued, and the trace
/// lines it wrote while routing pointer events.
#[derive(Debug, Clone, PartialEq, Eq)]
pub struct LayersPanelState {
    pub rows: Vec<LayerRow>,
    pub property_rows: Vec<PropertyTrackRow>,
    pub selected_id: Option<String>,
    pub selected_property_id: Option<String>,
    pub current_breath: u32,
    pub auto_key_enabled: bool,
    pub loop_window_start: u32,
    pub loop_window_end: u32,
    pub playing: bool,
    pub loop_enabled: bool,
    pending_action: Option<LayersPanelAction>,
    interaction_log: Vec<String>,
}

/// The trace holds at most this many lines; the oldest goes first.
pub const INTERACTION_LOG_CAP: usize = 256;

/// The panel state as values: what it shows, the queued action and the
/// trace lines not yet drained (oldest first).
pub struct LayersPanelView {
    pub rows: Seq<LayerRow>,
    pub property_rows: Seq<PropertyTrackRow>,
    pub selected_id: Option<String>,
    pub selected_property_id: Option<String>,
    pub current_breath: u32,
    pub auto_key_enabled: bool,
    pub loop_window_start: u32,
    pub loop_window_end: u32,
    pub playing: bool,
    pub loop_enabled: bool,
    pub pending: Option<LayersPanelAction>,
    pub log: Seq<String>,
}

impl View for LayersPanelState {
    type V = LayersPanelView;

    closed spec fn view(&self) -> LayersPanelView {
        LayersPanelView {
            rows: self.rows@,
            property_rows: self.property_rows@,
            selected_id: self.selected_id,
            selected_property_id: self.selected_property_id,
            current_breath: self.current_breath,
            auto_key_enabled: self.auto_key_enabled,
            loop_window_start: self.loop_window_start,
            loop_window_end: self.loop_window_end,
            playing: self.playing,
            loop_enabled: self.loop_enabled,
            pending: self.pending_action,
            log: self.interaction_log@,
        }
    }
}

/// The trace after pushing `line`: full traces drop their oldest line.
pub open spec fn pushed_log(log: Seq<String>, line: String) -> Seq<String> {
    (if log.len() >= INTERACTION_LOG_CAP { log.drop_first() } else { log }).push(line)
}

/// The trace after pushing `lines` in order.
pub open spec fn pushed_lines(log: Seq<String>, lines: Seq<String>) -> Seq<String>
    decreases lines.len(),
{
    if lines.len() == 0 {
        log
    } else {
        pushed_log(pushed_lines(log, lines.drop_last()), lines.last())
    }
}

/// The newest `INTERACTION_LOG_CAP` lines of `s`, oldest first.
pub open spec fn newest_lines(s: Seq<String>) -> Seq<String> {
    if s.len() > INTERACTION_LOG_CAP { s.skip(s.len() - INTERACTION_LOG_CAP) } else { s }
}

/// Pushing lines onto a trace that is not over its cap keeps the newest
/// `INTERACTION_LOG_CAP` of the old lines and the new ones, oldest first;
/// from an empty trace, the newest of the pushed lines.
pub proof fn law_log_keeps_newest(log: Seq<String>, lines: Seq<String>)
    requires
        log.len() <= INTERACTION_LOG_CAP,
    ensures
        pushed_lines(log, lines) == newest_lines(log + lines),
        pushed_lines(Seq::empty(), lines) == newest_lines(lines),
    decreases lines.len(),
{
    if lines.len() > 0 {
        law_log_keeps_newest(log, lines.drop_last());
        let t = log + lines.drop_last();
        let l = lines.last();
        assert(log + lines =~= t.push(l));
        let p = newest_lines(t);
        if t.len() >= INTERACTION_LOG_CAP {
            assert(p.len() == INTERACTION_LOG_CAP);
            assert(p.drop_first().push(l) =~= newest_lines(t.push(l)));
        } else {
            assert(p == t);
            assert(p.push(l) =~= newest_lines(t.push(l)));
        }
        law_log_keeps_newest(Seq::empty(), lines.drop_last());
        let t2 = Seq::<String>::empty() + lines.drop_last();
        assert(t2 =~= lines.drop_last());
        let p2 = newest_lines(lines.drop_last());
        if lines.drop_last().len() >= INTERACTION_LOG_CAP {
            assert(p2.drop_first().push(l) =~= newest_lines(lines));
        } else {
            assert(p2.push(l) =~= newest_lines(lines));
        }
    } else {
        assert(log + lines =~= log);
    }
}

impl LayersPanelState {
    /// Pushes one trace line; when the trace is full the oldest line goes.
    pub fn log_interaction(&mut self, line: String)
        ensures
            final(self)@ == (LayersPanelView { log: pushed_log(old(self)@.log, line), ..old(self)@ }),
            old(self)@.log.len() <= INTERACTION_LOG_CAP ==> final(self)@.log.len() <= INTERACTION_LOG_CAP,
    {
        if self.interaction_log.len() >= INTERACTION_LOG_CAP {
            self.interaction_log.remove(0);
        }
        self.interaction_log.push(line);
    }

    /// Drains the trace lines, oldest first.
    pub fn take_interaction_log(&mut self) -> (r: Vec<String>)
        ensures
            r@ == old(self)@.log,
            final(self)@ == (LayersPanelView { log: Seq::empty(), ..old(self)@ }),
    {
        let mut out: Vec<String> = Vec::new();
        std::mem::swap(&mut out, &mut self.interaction_log);
        out
    }

    /// Refreshes what the panel shows from the document and the session;
    /// the pending action and the trace stay.
    pub fn sync(
        &mut self,
        rows: Vec<LayerRow>,
        property_rows: Vec<PropertyTrackRow>,
        selected_id: Option<String>,
        selected_property_id: Option<String>,
        current_breath: u32,
        auto_key_enabled: bool,
        loop_window_start: u32,
        loop_window_end: u32,
        playing: bool,
        loop_enabled: bool,
    )
        ensures
            final(self)@ == (LayersPanelView {
                rows: rows@,
                property_rows: property_rows@,
                selected_id,
                selected_property_id,
                current_breath,
                auto_key_enabled,
                loop_window_start,
                loop_window_end,
                playing,
                loop_enabled,
                ..old(self)@
            }),
    {
        self.rows = rows;
        self.property_rows = property_rows;
        self.selected_id = selected_id;
        self.selected_property_id = selected_property_id;
        self.current_breath = current_breath;
        self.auto_key_enabled = auto_key_enabled;
        self.loop_window_start = loop_window_start;
        self.loop_window_end = loop_window_end;
        self.playing = playing;
        self.loop_enabled = loop_enabled;
    }

    /// Hands the queued action to the caller and clears it.
    pub fn take_pending_action(&mut self) -> (r: Option<LayersPanelAction>)
        ensures
            r == old(self)@.pending,
            final(self)@ == (LayersPanelView { pending: None, ..old(self)@ }),
    {
        self.pending_action.take()
    }

    /// Queues an action; a later one replaces one not yet taken.
    pub fn queue_action(&mut self, action: LayersPanelAction)
        ensures
            final(self)@ == (LayersPanelView { pending: Some(action), ..old(self)@ }),
    {
        self.pending_action = Some(action);
    }
}

impl Default for LayersPanelState {
    fn default() -> (s: Self)
        ensures
            s@ == (LayersPanelView {
                rows: Seq::empty(),
                property_rows: Seq::empty(),
                selected_id: None,
                selected_property_id: None,
                current_breath: 0,
                auto_key_enabled: false,
                loop_window_start: 0,
                loop_window_end: 0,
                playing: false,
                loop_enabled: false,
                pending: None,
                log: Seq::empty(),
            }),
    {
        LayersPanelState {
            rows: Vec::new(),
            property_rows: Vec::new(),
            selected_id: None,
            selected_property_id: None,
            current_breath: 0,
            auto_key_enabled: false,
            loop_window_start: 0,
            loop_window_end: 0,
            playing: false,
            loop_enabled: false,
            pending_action: None,
            interaction_log: Vec::new(),
        }
    }
}

/// The glyph of one cell of a property-track bar: blanks show empty heads
/// and centers, visible content solid end caps, hidden content the dimmed
/// caps and dashes. `local_index` counts cells from the bar's start.
pub open spec fn track_cell_glyph(is_blank: bool, is_visible: bool, length_breaths: u32, local_index: u32) -> char {
    let single = length_breaths <= 1;
    let first = local_index == 0;
    let last = local_index + 1 >= length_breaths;
    if is_blank {
        if single { '▪' } else if first { '◧' } else if last { '◨' } else { '▪' }
    } else if is_visible {
        if single || first { '█' } else if last { '▦' } else { '▥' }
    } else {
        if single { '▒' } else if first { '╺' } else if last { '╸' } else { '╌' }
    }
}

pub fn property_track_cell_graphic(is_blank: bool, is_visible: bool, length_breaths: u32, local_index: u32) -> (c: char)
    ensures
        c == track_cell_glyph(is_blank, is_visible, length_breaths, local_index),
{
    let is_single = length_breaths <= 1;
    let is_first = local_index == 0;
    let is_last = local_index as u64 + 1 >= length_breaths as u64;
    if is_blank {
        if is_single {
            return '▪';
        }
        if is_first {
            return '◧';
        }
        if is_last {
            return '◨';
        }
        return '▪';
    }
    if is_visible {
        if is_single {
            return '█';
        }
        if is_first {
            return '█';
        }
        if is_last {
            return '▦';
        }
        return '▥';
    }
    if is_single {
        return '▒';
    }
    if is_first {
        return '╺';
    }
    if is_last {
        return '╸';
    }
    '╌'
}

/// Which piece of a bar a pointer landed on.
#[derive(Debug, Clone, Copy, PartialEq, Eq, Structural)]
pub enum BarPiece {
    Single,
    LeftHead,
    RightHead,
    Center,
}

/// Whether the bar under the pointer holds content or is blank.
#[derive(Debug, Clone, Copy, PartialEq, Eq, Structural)]
pub enum CellType {
    Solid,
    Empty,
}

/// The pointer button of a press.
#[derive(Debug, Clone, Copy, PartialEq, Eq, Structural)]
pub enum PointerButton {
    Left,
    Right,
}

/// How a press-drag on a property bar reshapes it.
#[derive(Debug, Clone, Copy, PartialEq, Eq, Structural)]
pub enum PropertyDragMode {
    /// Moves the whole bar, keeping its length.
    Move,
    /// Reshapes the left edge, anchored at the right one.
    TrimStart,
    /// Reshapes the right edge, anchored at the start.
    TrimEnd,
    /// Grows or shrinks a single-breath bar toward the pointer.
    DynamicResize,
    /// Swaps the bar's breaths with the bar the pointer lands on.
    Swap,
}

/// Which timing edit a drag commits.
#[derive(Debug, Clone, Copy, PartialEq, Eq, Structural)]
pub enum PropertyTimingResolution {
    /// Neighbours on the dragged side shift by the same amount.
    Pushed,
    /// The bar takes its span and covered neighbours yield.
    Destructive,
}

/// Where on a property bar a pointer event landed.
#[derive(Debug, Clone, PartialEq, Eq)]
pub struct PropertyBlockHit {
    pub layer_id: String,
    pub property_id: String,
    pub block_id: String,
    pub breath: u32,
    pub piece: BarPiece,
    pub cell_type: CellType,
}

/// The drag a press starts, by piece, cell type and button; `None` where
/// the press only selects.
pub open spec fn drag_mode_for(cell_type: CellType, piece: BarPiece, button: PointerButton)
    -> Option<(PropertyDragMode, PropertyTimingResolution)> {
    let right = button == PointerButton::Right;
    match piece {
        BarPiece::LeftHead => Some((PropertyDragMode::TrimStart,
            if right { PropertyTimingResolution::Destructive } else { PropertyTimingResolution::Pushed })),
        BarPiece::RightHead => Some((PropertyDragMode::TrimEnd,
            if right { PropertyTimingResolution::Destructive } else { PropertyTimingResolution::Pushed })),
        BarPiece::Single => if cell_type == CellType::Solid {
            Some((if right { PropertyDragMode::DynamicResize } else { PropertyDragMode::Move }, PropertyTimingResolution::Destructive))
        } else if right {
            Some((PropertyDragMode::DynamicResize, PropertyTimingResolution::Destructive))
        } else {
            None
        },
        BarPiece::Center => if cell_type == CellType::Solid {
            Some((if right { PropertyDragMode::Move } else { PropertyDragMode::Swap }, PropertyTimingResolution::Destructive))
        } else if right {
            None
        } else {
            Some((PropertyDragMode::Swap, PropertyTimingResolution::Destructive))
        },
    }
}

/// Resolves what a press-drag on `hit` does: heads trim (pushed on left,
/// destructive on right), solid centers swap on left and slide on right,
/// empty centers swap on left only, singles move or resize.
pub fn resolve_property_drag_mode(hit: &PropertyBlockHit, button: PointerButton)
    -> (r: Option<(PropertyDragMode, PropertyTimingResolution)>)
    ensures
        r == drag_mode_for(hit.cell_type, hit.piece, button),
{
    let is_right = match button {
        PointerButton::Right => true,
        PointerButton::Left => false,
    };
    match (hit.cell_type, hit.piece) {
        (CellType::Solid, BarPiece::Single) => Some(if is_right {
            (PropertyDragMode::DynamicResize, PropertyTimingResolution::Destructive)
        } else {
            (PropertyDragMode::Move, PropertyTimingResolution::Destructive)
        }),
        (_, BarPiece::LeftHead) => Some(if is_right {
            (PropertyDragMode::TrimStart, PropertyTimingResolution::Destructive)
        } else {
            (PropertyDragMode::TrimStart, PropertyTimingResolution::Pushed)
        }),
        (_, BarPiece::RightHead) => Some(if is_right {
            (PropertyDragMode::TrimEnd, PropertyTimingResolution::Destructive)
        } else {
            (PropertyDragMode::TrimEnd, PropertyTimingResolution::Pushed)
        }),
        (CellType::Solid, BarPiece::Center) => Some(if is_right {
            (PropertyDragMode::Move, PropertyTimingResolution::Destructive)
        } else {
            (PropertyDragMode::Swap, PropertyTimingResolution::Destructive)
        }),
        (CellType::Empty, BarPiece::Center) => {
            if is_right {
                None
            } else {
                Some((PropertyDragMode::Swap, PropertyTimingResolution::Destructive))
            }
        },
        (CellType::Empty, BarPiece::Single) => {
            if is_right {
                Some((PropertyDragMode::DynamicResize, PropertyTimingResolution::Destructive))
            } else {
                None
            }
        },
    }
}

/// The index of the first element that satisfies `p`.
#[verifier::opaque]
pub open spec fn first_where<T>(s: Seq<T>, p: spec_fn(T) -> bool) -> Option<int> {
    if exists|i: int| 0 <= i < s.len() && #[trigger] p(s[i]) {
        Some(choose|i: int| 0 <= i < s.len() && #[trigger] p(s[i]) && forall|k: int| 0 <= k < i ==> !p(s[k]))
    } else {
        None
    }
}

pub proof fn lemma_first_where<T>(s: Seq<T>, p: spec_fn(T) -> bool, i: int)
    requires
        0 <= i < s.len(),
        p(s[i]),
        forall|k: int| 0 <= k < i ==> !p(#[trigger] s[k]),
    ensures
        first_where(s, p) == Some(i),
{
    reveal(first_where);
    let j = choose|j: int| 0 <= j < s.len() && #[trigger] p(s[j]) && forall|k: int| 0 <= k < j ==> !p(s[k]);
    assert(0 <= j < s.len() && p(s[j]) && forall|k: int| 0 <= k < j ==> !p(s[k]));
    if j < i {
        assert(!p(s[j]));
    }
    if i < j {
        assert(!p(s[i]));
    }
}

pub proof fn lemma_first_where_none<T>(s: Seq<T>, p: spec_fn(T) -> bool)
    requires
        forall|k: int| 0 <= k < s.len() ==> !p(#[trigger] s[k]),
    ensures
        first_where(s, p) is None,
{
    reveal(first_where);
}

/// The property row a hit belongs to.
pub open spec fn row_of(hit: PropertyBlockHit) -> spec_fn(PropertyTrackRow) -> bool {
    |r: PropertyTrackRow| r.layer_id@ == hit.layer_id@ && r.property_id@ == hit.property_id@
}

/// A block with this id.
pub open spec fn block_named(id: Seq<char>) -> spec_fn(PropertyTrackBlock) -> bool {
    |b: PropertyTrackBlock| b.id@ == id
}

/// A bar starting at `breath`.
pub open spec fn starts_at(breath: int) -> spec_fn(PropertyTrackBlock) -> bool {
    |o: PropertyTrackBlock| o.start_breath == breath
}

/// A bar whose end runs into `breath`.
pub open spec fn ends_at(breath: int) -> spec_fn(PropertyTrackBlock) -> bool {
    |o: PropertyTrackBlock| o.start_breath + min1(o.length_breaths) == breath
}

/// The last breath of a bar (a zero length counts as one).
pub open spec fn bar_last(b: PropertyTrackBlock) -> int {
    b.start_breath + min1(b.length_breaths) - 1
}

/// Every bar of every row ends inside the breath range.
pub open spec fn rows_fit(rows: Seq<PropertyTrackRow>) -> bool {
    forall|r: int, k: int| 0 <= r < rows.len() && 0 <= k < rows[r].blocks@.len()
        ==> #[trigger] rows[r].blocks@[k].start_breath + min1(rows[r].blocks@[k].length_breaths) <= u32::MAX
}

/// The destructive span a double-right on a solid head asks for: from this
/// bar through the adjacent bar on the left (or, mirrored, the right);
/// `None` when there is no such row, bar or neighbour.
pub open spec fn head_merge_span(rows: Seq<PropertyTrackRow>, hit: PropertyBlockHit, mirror_right: bool) -> Option<(u32, u32)> {
    match first_where(rows, row_of(hit)) {
        None => None,
        Some(ri) => {
            let blocks = rows[ri].blocks@;
            match first_where(blocks, block_named(hit.block_id@)) {
                None => None,
                Some(bi) => {
                    let b = blocks[bi];
                    if mirror_right {
                        match first_where(blocks, starts_at(bar_last(b) + 1)) {
                            None => None,
                            Some(ni) => Some((b.start_breath, (bar_last(blocks[ni]) - b.start_breath + 1) as u32)),
                        }
                    } else {
                        match first_where(blocks, ends_at(b.start_breath as int)) {
                            None => None,
                            Some(ni) => Some((blocks[ni].start_breath, (bar_last(b) - blocks[ni].start_breath + 1) as u32)),
                        }
                    }
                },
            }
        },
    }
}

fn find_row(rows: &Vec<PropertyTrackRow>, hit: &PropertyBlockHit) -> (r: Option<usize>)
    ensures
        match r {
            Some(i) => i < rows@.len() && first_where(rows@, row_of(*hit)) == Some(i as int),
            None => first_where(rows@, row_of(*hit)) is None,
        },
{
    let mut i: usize = 0;
    while i < rows.len()
        invariant
            i <= rows@.len(),
            forall|k: int| 0 <= k < i ==> !row_of(*hit)(#[trigger] rows@[k]),
        decreases rows@.len() - i,
    {
        if str_eq(rows[i].layer_id.as_str(), hit.layer_id.as_str()) && str_eq(rows[i].property_id.as_str(), hit.property_id.as_str()) {
            proof {
                lemma_first_where(rows@, row_of(*hit), i as int);
            }
            return Some(i);
        }
        i = i + 1;
    }
    proof {
        lemma_first_where_none(rows@, row_of(*hit));
    }
    None
}

fn find_named(blocks: &Vec<PropertyTrackBlock>, id: &str) -> (r: Option<usize>)
    ensures
        match r {
            Some(i) => i < blocks@.len() && first_where(blocks@, block_named(id@)) == Some(i as int),
            None => first_where(blocks@, block_named(id@)) is None,
        },
{
    let mut i: usize = 0;
    while i < blocks.len()
        invariant
            i <= blocks@.len(),
            forall|k: int| 0 <= k < i ==> !block_named(id@)(#[trigger] blocks@[k]),
        decreases blocks@.len() - i,
    {
        if str_eq(blocks[i].id.as_str(), id) {
            proof {
                lemma_first_where(blocks@, block_named(id@), i as int);
            }
            return Some(i);
        }
        i = i + 1;
    }
    proof {
        lemma_first_where_none(blocks@, block_named(id@));
    }
    None
}

/// The first bar starting at `breath`.
fn find_starting_at(blocks: &Vec<PropertyTrackBlock>, breath: u64) -> (r: Option<usize>)
    ensures
        match r {
            Some(i) => i < blocks@.len() && first_where(blocks@, starts_at(breath as int)) == Some(i as int)
                && blocks@[i as int].start_breath == breath,
            None => first_where(blocks@, starts_at(breath as int)) is None,
        },
{
    let mut i: usize = 0;
    while i < blocks.len()
        invariant
            i <= blocks@.len(),
            forall|k: int| 0 <= k < i ==> !starts_at(breath as int)(#[trigger] blocks@[k]),
        decreases blocks@.len() - i,
    {
        if blocks[i].start_breath as u64 == breath {
            proof {
                lemma_first_where(blocks@, starts_at(breath as int), i as int);
            }
            return Some(i);
        }
        i = i + 1;
    }
    proof {
        lemma_first_where_none(blocks@, starts_at(breath as int));
    }
    None
}

/// The first bar whose end runs into `breath`.
fn find_ending_at(blocks: &Vec<PropertyTrackBlock>, breath: u32) -> (r: Option<usize>)
    ensures
        match r {
            Some(i) => i < blocks@.len() && first_where(blocks@, ends_at(breath as int)) == Some(i as int)
                && blocks@[i as int].start_breath + min1(blocks@[i as int].length_breaths) == breath,
            None => first_where(blocks@, ends_at(breath as int)) is None,
        },
{
    let mut i: usize = 0;
    while i < blocks.len()
        invariant
            i <= blocks@.len(),
            forall|k: int| 0 <= k < i ==> !ends_at(breath as int)(#[trigger] blocks@[k]),
        decreases blocks@.len() - i,
    {
        let len: u64 = if blocks[i].length_breaths == 0 { 1 } else { blocks[i].length_breaths as u64 };
        if blocks[i].start_breath as u64 + len == breath as u64 {
            proof {
                lemma_first_where(blocks@, ends_at(breath as int), i as int);
            }
            return Some(i);
        }
        i = i + 1;
    }
    proof {
        lemma_first_where_none(blocks@, ends_at(breath as int));
    }
    None
}

/// Resolves a solid head's double-right merge into the destructive span it
/// asks for; `None` at the span edge, where there is no neighbour.
pub fn content_head_merge_span(rows: &Vec<PropertyTrackRow>, hit: &PropertyBlockHit, mirror_right: bool) -> (r: Option<(u32, u32)>)
    requires
        rows_fit(rows@),
    ensures
        r == head_merge_span(rows@, *hit, mirror_right),
{
    let ri = match find_row(rows, hit) {
        Some(ri) => ri,
        None => {
            return None;
        },
    };
    let blocks = &rows[ri].blocks;
    let bi = match find_named(blocks, hit.block_id.as_str()) {
        Some(bi) => bi,
        None => {
            return None;
        },
    };
    let block = &blocks[bi];
    proof {
        assert(block.start_breath + min1(block.length_breaths) <= u32::MAX) by {
            assert(rows@[ri as int].blocks@[bi as int] == *block);
        }
    }
    let len: u32 = if block.length_breaths == 0 { 1 } else { block.length_breaths };
    let block_end: u32 = block.start_breath + len - 1;
    if mirror_right {
        let ni = match find_starting_at(blocks, block_end as u64 + 1) {
            Some(ni) => ni,
            None => {
                return None;
            },
        };
        let nb = &blocks[ni];
        proof {
            assert(nb.start_breath + min1(nb.length_breaths) <= u32::MAX) by {
                assert(rows@[ri as int].blocks@[ni as int] == *nb);
            }
        }
        let nlen: u32 = if nb.length_breaths == 0 { 1 } else { nb.length_breaths };
        let neighbor_end: u32 = nb.start_breath + nlen - 1;
        Some((block.start_breath, neighbor_end - block.start_breath + 1))
    } else {
        let ni = match find_ending_at(blocks, block.start_breath) {
            Some(ni) => ni,
            None => {
                return None;
            },
        };
        let nb = &blocks[ni];
        Some((nb.start_breath, block_end - nb.start_breath + 1))
    }
}

/// What a double click on a property bar asks for: solid centers split at
/// the clicked breath on left, solid singles duplicate on left, solid
/// singles and centers blank on right, solid heads merge their neighbour in
/// on right, empties merge into content on right (left-preferred unless on
/// a right head) and cycle their interpolation or ease on left. `None`
/// where the click does nothing.
pub open spec fn double_click_spec(rows: Seq<PropertyTrackRow>, hit: PropertyBlockHit, button: PointerButton) -> Option<LayersPanelAction> {
    let (l, p, b) = (hit.layer_id, hit.property_id, hit.block_id);
    match (hit.cell_type, button) {
        (CellType::Solid, PointerButton::Left) => match hit.piece {
            BarPiece::Center => Some(LayersPanelAction::SplitPropertyBlock(l, p, b, hit.breath)),
            BarPiece::Single => Some(LayersPanelAction::DuplicatePropertyBlock(l, p, b)),
            _ => None,
        },
        (CellType::Solid, PointerButton::Right) => match hit.piece {
            BarPiece::Center | BarPiece::Single => Some(LayersPanelAction::BlankPropertyBlock(l, p, b)),
            _ => match head_merge_span(rows, hit, hit.piece == BarPiece::RightHead) {
                Some((s, n)) => Some(LayersPanelAction::SetPropertyBlockTimingDestructive(l, p, b, s, n)),
                None => None,
            },
        },
        (CellType::Empty, PointerButton::Right) =>
            Some(LayersPanelAction::MergeEmptyPropertyBlock(l, p, b, hit.piece != BarPiece::RightHead)),
        (CellType::Empty, PointerButton::Left) => match hit.piece {
            BarPiece::LeftHead => Some(LayersPanelAction::CycleEmptyEaseOut(l, p, b)),
            BarPiece::RightHead => Some(LayersPanelAction::CycleEmptyEaseIn(l, p, b)),
            _ => Some(LayersPanelAction::CycleEmptyInterpMode(l, p, b)),
        },
    }
}

/// The action a double click on a property bar queues, if any.
pub fn property_block_double_click_action(rows: &Vec<PropertyTrackRow>, hit: &PropertyBlockHit, button: PointerButton)
    -> (r: Option<LayersPanelAction>)
    requires
        rows_fit(rows@),
    ensures
        r == double_click_spec(rows@, *hit, button),
{
    let l = hit.layer_id.clone();
    let p = hit.property_id.clone();
    let b = hit.block_id.clone();
    match (hit.cell_type, hit.piece, button) {
        (CellType::Solid, BarPiece::Center, PointerButton::Left) => Some(LayersPanelAction::SplitPropertyBlock(l, p, b, hit.breath)),
        (CellType::Solid, BarPiece::Single, PointerButton::Left) => Some(LayersPanelAction::DuplicatePropertyBlock(l, p, b)),
        (CellType::Solid, BarPiece::Single, PointerButton::Right)
        | (CellType::Solid, BarPiece::Center, PointerButton::Right) => Some(LayersPanelAction::BlankPropertyBlock(l, p, b)),
        (CellType::Solid, BarPiece::LeftHead, PointerButton::Right) => match content_head_merge_span(rows, hit, false) {
            Some((s, n)) => Some(LayersPanelAction::SetPropertyBlockTimingDestructive(l, p, b, s, n)),
            None => None,
        },
        (CellType::Solid, BarPiece::RightHead, PointerButton::Right) => match content_head_merge_span(rows, hit, true) {
            Some((s, n)) => Some(LayersPanelAction::SetPropertyBlockTimingDestructive(l, p, b, s, n)),
            None => None,
        },
        (CellType::Empty, piece, PointerButton::Right) => {
            let prefer_left = match piece {
                BarPiece::RightHead => false,
                _ => true,
            };
            Some(LayersPanelAction::MergeEmptyPropertyBlock(l, p, b, prefer_left))
        },
        (CellType::Empty, BarPiece::LeftHead, PointerButton::Left) => Some(LayersPanelAction::CycleEmptyEaseOut(l, p, b)),
        (CellType::Empty, BarPiece::RightHead, PointerButton::Left) => Some(LayersPanelAction::CycleEmptyEaseIn(l, p, b)),
        (CellType::Empty, _, PointerButton::Left) => Some(LayersPanelAction::CycleEmptyInterpMode(l, p, b)),
        _ => None,
    }
}

} // verus!
