use painter_domain::hand_settings::{
    hand_setting_rows, HandTarget, HandView, NumberEdit, SelectionModeKind, SettingRow, TextSteps, ToolKind,
};

fn hand(weight_index: u8, brush_size: u8) -> HandView {
    HandView {
        weight_index,
        select_channels: (true, false, true),
        edit_channels: (true, true, false),
        target: HandTarget::Image,
        brush_size,
        fill_diagonal: false,
        pick_opposite_hand: true,
    }
}

fn steps() -> TextSteps {
    TextSteps { char_step: (1, 0, 0), enter_step: (0, -1, 0) }
}

fn ids(rows: &[SettingRow]) -> Vec<String> {
    rows.iter()
        .map(|row| match row {
            SettingRow::Matrix { id, .. } => id.clone(),
            SettingRow::Number { id, .. } => id.clone(),
        })
        .collect()
}

#[test]
fn fixed_rows_come_first_and_tool_rows_follow_the_tools() {
    let rows = hand_setting_rows(
        hand(1, 3),
        hand(2, 1),
        ToolKind::Brush,
        ToolKind::Fill,
        &vec!["brush_size".to_string()],
        &vec!["fill_diagonal".to_string()],
        SelectionModeKind::Subtract,
        steps(),
        &None,
    );
    assert_eq!(
        ids(&rows),
        vec!["weight", "select", "edit", "target", "selection_mode", "brush_size", "fill_diagonal"]
    );
    match &rows[5] {
        SettingRow::Matrix { columns, token_width, .. } => {
            assert_eq!(*token_width, 2);
            assert_eq!(columns.len(), 5);
            assert!(columns[2].left_value && !columns[2].right_value);
            assert!(columns[0].right_value);
            assert!(columns[0].left_enabled && !columns[0].right_enabled);
        }
        _ => panic!("brush size is a matrix row"),
    }
    match &rows[4] {
        SettingRow::Matrix { columns, .. } => {
            let set: Vec<bool> = columns.iter().map(|c| c.left_value).collect();
            assert_eq!(set, vec![false, false, true, false]);
        }
        _ => panic!("mode is a matrix row"),
    }
    match &rows[6] {
        SettingRow::Matrix { columns, .. } => {
            assert!(columns[0].left_value && columns[0].right_value);
            assert!(!columns[0].left_enabled && columns[0].right_enabled);
        }
        _ => panic!("fill is a matrix row"),
    }
}

#[test]
fn text_rows_carry_the_steps_and_the_open_edit() {
    let edit = NumberEdit { row_id: "text_enter_step".to_string(), field: 1, buffer: "-".to_string() };
    let rows = hand_setting_rows(
        hand(0, 1),
        hand(0, 1),
        ToolKind::Text,
        ToolKind::Other,
        &vec!["text_char_step".to_string(), "text_enter_step".to_string()],
        &Vec::new(),
        SelectionModeKind::Replace,
        steps(),
        &Some(edit),
    );
    assert_eq!(rows.len(), 7);
    match &rows[5] {
        SettingRow::Number { id, values, min, max, editing, .. } => {
            assert_eq!(id, "text_char_step");
            assert_eq!(values, &vec![1, 0, 0]);
            assert_eq!((*min, *max), (-9, 9));
            assert_eq!(editing, &None);
        }
        _ => panic!("char step is a number row"),
    }
    match &rows[6] {
        SettingRow::Number { values, editing, .. } => {
            assert_eq!(values, &vec![0, -1, 0]);
            assert_eq!(editing, &Some((1, "-".to_string())));
        }
        _ => panic!("enter step is a number row"),
    }
}
