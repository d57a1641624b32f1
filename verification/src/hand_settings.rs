//! The rows of the hand-settings panel: which matrix columns are set and
//! which are enabled for each hand, and which tool rows appear. The tool
//! registry is outside this code base: each hand's tool comes in as its kind
//! and the property rows it declares.

use vstd::prelude::*;
use crate::text::owned;

verus! {

/// The kind of tool a hand holds.
#[derive(Debug, Clone, Copy, PartialEq, Eq, Structural)]
pub enum ToolKind {
    Brush,
    Erase,
    Fill,
    Picker,
    Text,
    Other,
}

/// What a hand paints onto.
#[derive(Debug, Clone, Copy, PartialEq, Eq, Structural)]
pub enum HandTarget {
    Selection,
    Image,
}

/// The selection mode shared by both hands.
#[derive(Debug, Clone, Copy, PartialEq, Eq, Structural)]
pub enum SelectionModeKind {
    Replace,
    Additive,
    Subtract,
    Intersect,
}

/// The settings of one hand the panel shows.
#[derive(Debug, Clone, Copy, PartialEq, Eq)]
pub struct HandView {
    pub weight_index: u8,
    /// Select channels: graphic, color, weight.
    pub select_channels: (bool, bool, bool),
    /// Edit channels: graphic, color, weight.
    pub edit_channels: (bool, bool, bool),
    pub target: HandTarget,
    pub brush_size: u8,
    pub fill_diagonal: bool,
    pub pick_opposite_hand: bool,
}

/// The text tool's cursor steps, shared across hands.
#[derive(Debug, Clone, Copy, PartialEq, Eq)]
pub struct TextSteps {
    pub char_step: (i32, i32, i32),
    pub enter_step: (i32, i32, i32),
}

/// A number field being typed into: its row, field and buffer.
#[derive(Debug, PartialEq, Eq)]
pub struct NumberEdit {
    pub row_id: String,
    pub field: usize,
    pub buffer: String,
}

/// One column of a matrix row, per hand set and enabled.
#[derive(Debug, PartialEq, Eq)]
pub struct SettingColumn {
    pub id: String,
    pub label: String,
    pub left_value: bool,
    pub right_value: bool,
    pub left_enabled: bool,
    pub right_enabled: bool,
}

/// A row of the panel.
#[derive(Debug, PartialEq, Eq)]
pub enum SettingRow {
    Matrix { id: String, label: String, columns: Vec<SettingColumn>, token_width: u8 },
    Number { id: String, label: String, values: Vec<i32>, min: i32, max: i32, editing: Option<(usize, String)> },
}

/// A column as plain values: id, label, left and right value, left and right enabled.
pub type ColumnView = (Seq<char>, Seq<char>, bool, bool, bool, bool);

/// A row as plain values.
pub enum RowView {
    Matrix { id: Seq<char>, label: Seq<char>, columns: Seq<ColumnView>, token_width: u8 },
    Number { id: Seq<char>, label: Seq<char>, values: Seq<i32>, min: i32, max: i32, editing: Option<(usize, Seq<char>)> },
}

pub open spec fn column_view(c: SettingColumn) -> ColumnView {
    (c.id@, c.label@, c.left_value, c.right_value, c.left_enabled, c.right_enabled)
}

pub open spec fn row_view(r: SettingRow) -> RowView {
    match r {
        SettingRow::Matrix { id, label, columns, token_width } =>
            RowView::Matrix { id: id@, label: label@, columns: columns@.map_values(|c: SettingColumn| column_view(c)), token_width },
        SettingRow::Number { id, label, values, min, max, editing } =>
            RowView::Number { id: id@, label: label@, values: values@, min, max, editing: match editing {
                Some((f, b)) => Some((f, b@)),
                None => None,
            } },
    }
}

pub open spec fn rows_view(rows: Seq<SettingRow>) -> Seq<RowView> {
    rows.map_values(|r: SettingRow| row_view(r))
}

/// A column enabled for both hands.
pub open spec fn both(id: Seq<char>, label: Seq<char>, lv: bool, rv: bool) -> ColumnView {
    (id, label, lv, rv, true, true)
}

pub open spec fn is_brush_like(t: ToolKind) -> bool {
    t == ToolKind::Brush || t == ToolKind::Erase
}

/// Whether either hand's tool declares the row.
pub open spec fn row_used(left_rows: Seq<Seq<char>>, right_rows: Seq<Seq<char>>, id: Seq<char>) -> bool {
    left_rows.contains(id) || right_rows.contains(id)
}

pub open spec fn weight_columns(l: HandView, r: HandView) -> Seq<ColumnView> {
    seq![
        both("0"@, "0"@, l.weight_index == 0, r.weight_index == 0),
        both("1"@, "1"@, l.weight_index == 1, r.weight_index == 1),
        both("2"@, "2"@, l.weight_index == 2, r.weight_index == 2),
        both("3"@, "3"@, l.weight_index == 3, r.weight_index == 3),
    ]
}

pub open spec fn channel_columns(l: (bool, bool, bool), r: (bool, bool, bool)) -> Seq<ColumnView> {
    seq![
        both("graphic"@, "GFX"@, l.0, r.0),
        both("color"@, "COL"@, l.1, r.1),
        both("weight"@, "WGT"@, l.2, r.2),
    ]
}

pub open spec fn target_columns(l: HandView, r: HandView) -> Seq<ColumnView> {
    seq![
        both("selection"@, "select"@, l.target == HandTarget::Selection, r.target == HandTarget::Selection),
        both("image"@, "image"@, l.target == HandTarget::Image, r.target == HandTarget::Image),
    ]
}

pub open spec fn mode_columns(mode: SelectionModeKind) -> Seq<ColumnView> {
    seq![
        both("replace"@, "rep"@, mode == SelectionModeKind::Replace, mode == SelectionModeKind::Replace),
        both("add"@, "add"@, mode == SelectionModeKind::Additive, mode == SelectionModeKind::Additive),
        both("sub"@, "sub"@, mode == SelectionModeKind::Subtract, mode == SelectionModeKind::Subtract),
        both("mul"@, "mul"@, mode == SelectionModeKind::Intersect, mode == SelectionModeKind::Intersect),
    ]
}

pub open spec fn size_column(id: Seq<char>, size: u8, l: HandView, r: HandView, lt: ToolKind, rt: ToolKind) -> ColumnView {
    (id, id, l.brush_size == size, r.brush_size == size, is_brush_like(lt), is_brush_like(rt))
}

pub open spec fn size_columns(l: HandView, r: HandView, lt: ToolKind, rt: ToolKind) -> Seq<ColumnView> {
    seq![
        size_column("1"@, 1, l, r, lt, rt),
        size_column("2"@, 2, l, r, lt, rt),
        size_column("3"@, 3, l, r, lt, rt),
        size_column("4"@, 4, l, r, lt, rt),
        size_column("5"@, 5, l, r, lt, rt),
    ]
}

pub open spec fn fill_columns(l: HandView, r: HandView, lt: ToolKind, rt: ToolKind) -> Seq<ColumnView> {
    seq![
        ("off"@, "orth"@, !l.fill_diagonal, !r.fill_diagonal, lt == ToolKind::Fill, rt == ToolKind::Fill),
        ("on"@, "diag"@, l.fill_diagonal, r.fill_diagonal, lt == ToolKind::Fill, rt == ToolKind::Fill),
    ]
}

pub open spec fn pick_columns(l: HandView, r: HandView, lt: ToolKind, rt: ToolKind) -> Seq<ColumnView> {
    seq![
        ("self"@, "self"@, !l.pick_opposite_hand, !r.pick_opposite_hand, lt == ToolKind::Picker, rt == ToolKind::Picker),
        ("opp"@, "opp"@, l.pick_opposite_hand, r.pick_opposite_hand, lt == ToolKind::Picker, rt == ToolKind::Picker),
    ]
}

pub open spec fn editing_for(edit: Option<(Seq<char>, usize, Seq<char>)>, row_id: Seq<char>) -> Option<(usize, Seq<char>)> {
    match edit {
        Some((id, f, b)) => if id == row_id { Some((f, b)) } else { None },
        None => None,
    }
}

pub open spec fn opt_row(used: bool, row: RowView) -> Seq<RowView> {
    if used { seq![row] } else { Seq::empty() }
}

/// The panel's rows: weight, select and edit channels, target and selection
/// mode always; the brush size, fill, picker and text rows when either
/// hand's tool declares them.
pub open spec fn setting_rows_spec(
    l: HandView,
    r: HandView,
    lt: ToolKind,
    rt: ToolKind,
    left_rows: Seq<Seq<char>>,
    right_rows: Seq<Seq<char>>,
    mode: SelectionModeKind,
    steps: TextSteps,
    edit: Option<(Seq<char>, usize, Seq<char>)>,
) -> Seq<RowView> {
    seq![
        RowView::Matrix { id: "weight"@, label: "weight"@, columns: weight_columns(l, r), token_width: 2 },
        RowView::Matrix { id: "select"@, label: "Select"@, columns: channel_columns(l.select_channels, r.select_channels), token_width: 4 },
        RowView::Matrix { id: "edit"@, label: "Edit"@, columns: channel_columns(l.edit_channels, r.edit_channels), token_width: 4 },
        RowView::Matrix { id: "target"@, label: "target"@, columns: target_columns(l, r), token_width: 7 },
        RowView::Matrix { id: "selection_mode"@, label: "mode"@, columns: mode_columns(mode), token_width: 4 },
    ]
    + opt_row(row_used(left_rows, right_rows, "brush_size"@),
        RowView::Matrix { id: "brush_size"@, label: "size"@, columns: size_columns(l, r, lt, rt), token_width: 2 })
    + opt_row(row_used(left_rows, right_rows, "fill_diagonal"@),
        RowView::Matrix { id: "fill_diagonal"@, label: "fill"@, columns: fill_columns(l, r, lt, rt), token_width: 4 })
    + opt_row(row_used(left_rows, right_rows, "picker_opposite_hand"@),
        RowView::Matrix { id: "picker_opposite_hand"@, label: "pick"@, columns: pick_columns(l, r, lt, rt), token_width: 4 })
    + opt_row(row_used(left_rows, right_rows, "text_char_step"@),
        RowView::Number { id: "text_char_step"@, label: "char"@,
            values: seq![steps.char_step.0, steps.char_step.1, steps.char_step.2], min: -9i32, max: 9i32,
            editing: editing_for(edit, "text_char_step"@) })
    + opt_row(row_used(left_rows, right_rows, "text_enter_step"@),
        RowView::Number { id: "text_enter_step"@, label: "enter"@,
            values: seq![steps.enter_step.0, steps.enter_step.1, steps.enter_step.2], min: -9i32, max: 9i32,
            editing: editing_for(edit, "text_enter_step"@) })
}


fn column(id: &str, label: &str, lv: bool, rv: bool, le: bool, re: bool) -> (c: SettingColumn)
    ensures
        column_view(c) == (id@, label@, lv, rv, le, re),
{
    SettingColumn { id: owned(id), label: owned(label), left_value: lv, right_value: rv, left_enabled: le, right_enabled: re }
}

fn matrix(id: &str, label: &str, columns: Vec<SettingColumn>, token_width: u8) -> (r: SettingRow)
    ensures
        row_view(r) == (RowView::Matrix { id: id@, label: label@, columns: columns@.map_values(|c: SettingColumn| column_view(c)), token_width }),
{
    SettingRow::Matrix { id: owned(id), label: owned(label), columns, token_width }
}

fn declares(rows: &Vec<String>, id: &str) -> (r: bool)
    ensures
        r == rows@.map_values(|s: String| s@).contains(id@),
{
    let mut i: usize = 0;
    while i < rows.len()
        invariant
            i <= rows@.len(),
            forall|j: int| 0 <= j < i ==> rows@[j]@ != id@,
        decreases rows@.len() - i,
    {
        if crate::text::str_eq(rows[i].as_str(), id) {
            assert(rows@.map_values(|s: String| s@)[i as int] == id@);
            return true;
        }
        i = i + 1;
    }
    proof {
        let v = rows@.map_values(|s: String| s@);
        if v.contains(id@) {
            let j = choose|j: int| 0 <= j < v.len() && v[j] == id@;
            assert(rows@[j]@ == id@);
        }
    }
    false
}

fn editing(edit: &Option<NumberEdit>, row_id: &str) -> (r: Option<(usize, String)>)
    ensures
        (match r { Some((f, b)) => Some((f, b@)), None => None }) == editing_for(edit_view(edit), row_id@),
{
    match edit {
        Some(e) => {
            if crate::text::str_eq(e.row_id.as_str(), row_id) {
                Some((e.field, owned(e.buffer.as_str())))
            } else {
                None
            }
        },
        None => None,
    }
}

pub open spec fn edit_view(edit: &Option<NumberEdit>) -> Option<(Seq<char>, usize, Seq<char>)> {
    match edit {
        Some(e) => Some((e.row_id@, e.field, e.buffer@)),
        None => None,
    }
}

fn brush_like(t: ToolKind) -> (r: bool)
    ensures
        r == is_brush_like(t),
{
    match t {
        ToolKind::Brush | ToolKind::Erase => true,
        _ => false,
    }
}

fn is_tool(t: ToolKind, k: ToolKind) -> (r: bool)
    ensures
        r == (t == k),
{
    t == k
}

fn base_rows(l: HandView, r: HandView, mode: SelectionModeKind) -> (rows: Vec<SettingRow>)
    ensures
        rows_view(rows@) == seq![
            RowView::Matrix { id: "weight"@, label: "weight"@, columns: weight_columns(l, r), token_width: 2 },
            RowView::Matrix { id: "select"@, label: "Select"@, columns: channel_columns(l.select_channels, r.select_channels), token_width: 4 },
            RowView::Matrix { id: "edit"@, label: "Edit"@, columns: channel_columns(l.edit_channels, r.edit_channels), token_width: 4 },
            RowView::Matrix { id: "target"@, label: "target"@, columns: target_columns(l, r), token_width: 7 },
            RowView::Matrix { id: "selection_mode"@, label: "mode"@, columns: mode_columns(mode), token_width: 4 },
        ],
{
    let weights = vec![
        column("0", "0", l.weight_index == 0, r.weight_index == 0, true, true),
        column("1", "1", l.weight_index == 1, r.weight_index == 1, true, true),
        column("2", "2", l.weight_index == 2, r.weight_index == 2, true, true),
        column("3", "3", l.weight_index == 3, r.weight_index == 3, true, true),
    ];
    assert(weights@.map_values(|c: SettingColumn| column_view(c)) =~= weight_columns(l, r));
    let selects = vec![
        column("graphic", "GFX", l.select_channels.0, r.select_channels.0, true, true),
        column("color", "COL", l.select_channels.1, r.select_channels.1, true, true),
        column("weight", "WGT", l.select_channels.2, r.select_channels.2, true, true),
    ];
    assert(selects@.map_values(|c: SettingColumn| column_view(c)) =~= channel_columns(l.select_channels, r.select_channels));
    let edits = vec![
        column("graphic", "GFX", l.edit_channels.0, r.edit_channels.0, true, true),
        column("color", "COL", l.edit_channels.1, r.edit_channels.1, true, true),
        column("weight", "WGT", l.edit_channels.2, r.edit_channels.2, true, true),
    ];
    assert(edits@.map_values(|c: SettingColumn| column_view(c)) =~= channel_columns(l.edit_channels, r.edit_channels));
    let ls = match l.target { HandTarget::Selection => true, HandTarget::Image => false };
    let rs = match r.target { HandTarget::Selection => true, HandTarget::Image => false };
    let targets = vec![
        column("selection", "select", ls, rs, true, true),
        column("image", "image", !ls, !rs, true, true),
    ];
    assert(targets@.map_values(|c: SettingColumn| column_view(c)) =~= target_columns(l, r));
    let m_rep = match mode { SelectionModeKind::Replace => true, _ => false };
    let m_add = match mode { SelectionModeKind::Additive => true, _ => false };
    let m_sub = match mode { SelectionModeKind::Subtract => true, _ => false };
    let m_mul = match mode { SelectionModeKind::Intersect => true, _ => false };
    let modes = vec![
        column("replace", "rep", m_rep, m_rep, true, true),
        column("add", "add", m_add, m_add, true, true),
        column("sub", "sub", m_sub, m_sub, true, true),
        column("mul", "mul", m_mul, m_mul, true, true),
    ];
    assert(modes@.map_values(|c: SettingColumn| column_view(c)) =~= mode_columns(mode));
    let rows = vec![
        matrix("weight", "weight", weights, 2),
        matrix("select", "Select", selects, 4),
        matrix("edit", "Edit", edits, 4),
        matrix("target", "target", targets, 7),
        matrix("selection_mode", "mode", modes, 4),
    ];
    proof {
        assert(rows_view(rows@) =~= seq![
            RowView::Matrix { id: "weight"@, label: "weight"@, columns: weight_columns(l, r), token_width: 2 },
            RowView::Matrix { id: "select"@, label: "Select"@, columns: channel_columns(l.select_channels, r.select_channels), token_width: 4 },
            RowView::Matrix { id: "edit"@, label: "Edit"@, columns: channel_columns(l.edit_channels, r.edit_channels), token_width: 4 },
            RowView::Matrix { id: "target"@, label: "target"@, columns: target_columns(l, r), token_width: 7 },
            RowView::Matrix { id: "selection_mode"@, label: "mode"@, columns: mode_columns(mode), token_width: 4 },
        ]);
    }
    rows
}

fn size_row(l: HandView, r: HandView, lt: ToolKind, rt: ToolKind) -> (row: SettingRow)
    ensures
        row_view(row) == (RowView::Matrix { id: "brush_size"@, label: "size"@, columns: size_columns(l, r, lt, rt), token_width: 2 }),
{
    let lb = brush_like(lt);
    let rb = brush_like(rt);
    let sizes = vec![
        column("1", "1", l.brush_size == 1, r.brush_size == 1, lb, rb),
        column("2", "2", l.brush_size == 2, r.brush_size == 2, lb, rb),
        column("3", "3", l.brush_size == 3, r.brush_size == 3, lb, rb),
        column("4", "4", l.brush_size == 4, r.brush_size == 4, lb, rb),
        column("5", "5", l.brush_size == 5, r.brush_size == 5, lb, rb),
    ];
    assert(sizes@.map_values(|c: SettingColumn| column_view(c)) =~= size_columns(l, r, lt, rt));
    matrix("brush_size", "size", sizes, 2)
}

fn fill_row(l: HandView, r: HandView, lt: ToolKind, rt: ToolKind) -> (row: SettingRow)
    ensures
        row_view(row) == (RowView::Matrix { id: "fill_diagonal"@, label: "fill"@, columns: fill_columns(l, r, lt, rt), token_width: 4 }),
{
    let lf = is_tool(lt, ToolKind::Fill);
    let rf = is_tool(rt, ToolKind::Fill);
    let fills = vec![
        column("off", "orth", !l.fill_diagonal, !r.fill_diagonal, lf, rf),
        column("on", "diag", l.fill_diagonal, r.fill_diagonal, lf, rf),
    ];
    assert(fills@.map_values(|c: SettingColumn| column_view(c)) =~= fill_columns(l, r, lt, rt));
    matrix("fill_diagonal", "fill", fills, 4)
}

fn pick_row(l: HandView, r: HandView, lt: ToolKind, rt: ToolKind) -> (row: SettingRow)
    ensures
        row_view(row) == (RowView::Matrix { id: "picker_opposite_hand"@, label: "pick"@, columns: pick_columns(l, r, lt, rt), token_width: 4 }),
{
    let lp = is_tool(lt, ToolKind::Picker);
    let rp = is_tool(rt, ToolKind::Picker);
    let picks = vec![
        column("self", "self", !l.pick_opposite_hand, !r.pick_opposite_hand, lp, rp),
        column("opp", "opp", l.pick_opposite_hand, r.pick_opposite_hand, lp, rp),
    ];
    assert(picks@.map_values(|c: SettingColumn| column_view(c)) =~= pick_columns(l, r, lt, rt));
    matrix("picker_opposite_hand", "pick", picks, 4)
}

fn number_row(id: &str, label: &str, step: (i32, i32, i32), edit: &Option<NumberEdit>) -> (row: SettingRow)
    ensures
        row_view(row) == (RowView::Number { id: id@, label: label@, values: seq![step.0, step.1, step.2], min: -9i32, max: 9i32,
            editing: editing_for(edit_view(edit), id@) }),
{
    let values = vec![step.0, step.1, step.2];
    assert(values@ =~= seq![step.0, step.1, step.2]);
    SettingRow::Number { id: owned(id), label: owned(label), values, min: -9i32, max: 9i32, editing: editing(edit, id) }
}

fn push_if(rows: &mut Vec<SettingRow>, used: bool, row: SettingRow)
    ensures
        rows_view(final(rows)@) == rows_view(old(rows)@) + opt_row(used, row_view(row)),
{
    let ghost before = rows_view(rows@);
    if used {
        rows.push(row);
    }
    proof {
        assert(rows_view(rows@) =~= before + opt_row(used, row_view(row)));
    }
}

fn used_by(left_rows: &Vec<String>, right_rows: &Vec<String>, id: &str) -> (r: bool)
    ensures
        r == row_used(left_rows@.map_values(|s: String| s@), right_rows@.map_values(|s: String| s@), id@),
{
    declares(left_rows, id) || declares(right_rows, id)
}

/// The rows of the hand-settings panel for the two hands' settings and
/// tools (`left_rows` and `right_rows` are the property rows each hand's
/// tool declares), the selection mode, the text steps and the number field
/// being typed into.
pub fn hand_setting_rows(
    left: HandView,
    right: HandView,
    left_tool: ToolKind,
    right_tool: ToolKind,
    left_rows: &Vec<String>,
    right_rows: &Vec<String>,
    mode: SelectionModeKind,
    steps: TextSteps,
    edit: &Option<NumberEdit>,
) -> (rows: Vec<SettingRow>)
    ensures
        rows_view(rows@) == setting_rows_spec(left, right, left_tool, right_tool,
            left_rows@.map_values(|s: String| s@), right_rows@.map_values(|s: String| s@), mode, steps, edit_view(edit)),
{
    let mut rows = base_rows(left, right, mode);
    let u = used_by(left_rows, right_rows, "brush_size");
    push_if(&mut rows, u, size_row(left, right, left_tool, right_tool));
    let u = used_by(left_rows, right_rows, "fill_diagonal");
    push_if(&mut rows, u, fill_row(left, right, left_tool, right_tool));
    let u = used_by(left_rows, right_rows, "picker_opposite_hand");
    push_if(&mut rows, u, pick_row(left, right, left_tool, right_tool));
    let u = used_by(left_rows, right_rows, "text_char_step");
    push_if(&mut rows, u, number_row("text_char_step", "char", steps.char_step, edit));
    let u = used_by(left_rows, right_rows, "text_enter_step");
    push_if(&mut rows, u, number_row("text_enter_step", "enter", steps.enter_step, edit));
    rows
}

} // verus!
