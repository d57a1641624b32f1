use painter_domain::panels::{
    push_session_event, session_status_label, truncate_to_width, DrawingSpaceWheelMode, SessionDiscoveredHost,
    SessionPanelAction, SessionPanelState, SessionRosterRow, ToolbarButton, ToolbarModule,
};

#[test]
fn the_wheel_mode_cycles_pan_depth_time_and_back() {
    assert_eq!(DrawingSpaceWheelMode::Pan.cycle(), DrawingSpaceWheelMode::Depth);
    assert_eq!(DrawingSpaceWheelMode::Depth.cycle(), DrawingSpaceWheelMode::Time);
    assert_eq!(DrawingSpaceWheelMode::Time.cycle(), DrawingSpaceWheelMode::Pan);
    let start = DrawingSpaceWheelMode::Depth;
    assert_eq!(start.cycle().cycle().cycle(), start);
}

#[test]
fn the_wheel_mode_button_shows_its_letter() {
    assert_eq!(DrawingSpaceWheelMode::Pan.glyph(), 'P');
    assert_eq!(DrawingSpaceWheelMode::Depth.glyph(), 'D');
    assert_eq!(DrawingSpaceWheelMode::Time.glyph(), 'T');
}

#[test]
fn truncation_keeps_whole_characters() {
    assert_eq!(truncate_to_width("hello", 3), "hel");
    assert_eq!(truncate_to_width("hi", 10), "hi");
    assert_eq!(truncate_to_width("ÅÄÖ", 2), "ÅÄ");
    assert_eq!(truncate_to_width("abc", 0), "");
}

#[test]
fn session_events_keep_the_newest_three() {
    let mut events: Vec<String> = Vec::new();
    push_session_event(&mut events, "joined".to_string());
    push_session_event(&mut events, "left".to_string());
    assert_eq!(events, vec!["joined".to_string(), "left".to_string()]);
    push_session_event(&mut events, "copied".to_string());
    push_session_event(&mut events, "dropped".to_string());
    assert_eq!(events, vec!["left".to_string(), "copied".to_string(), "dropped".to_string()]);
}

#[test]
fn the_status_line_follows_the_synced_fields_in_precedence() {
    assert_eq!(session_status_label(true, true, true, true, 2), "ENDED");
    assert_eq!(session_status_label(false, true, true, true, 2), "RECONNECTING...");
    assert_eq!(session_status_label(false, false, true, true, 2), "HOSTING");
    assert_eq!(session_status_label(false, false, true, false, 12), "CONNECTED (12)");
    assert_eq!(session_status_label(false, false, true, false, 0), "CONNECTED (0)");
    assert_eq!(session_status_label(false, false, false, true, 3), "OFFLINE");
}

#[test]
fn panel_values_compare_by_their_fields() {
    let host = SessionDiscoveredHost { name: "studio".to_string(), address: "10.0.0.2:7000".to_string() };
    assert_eq!(host.clone(), host);
    let user = SessionRosterRow {
        user_id: "u1".to_string(),
        display_name: "Ada".to_string(),
        is_host: true,
        is_you: false,
        color: [1, 2, 3],
    };
    assert_eq!(user.clone().color, [1, 2, 3]);
    assert_ne!(
        SessionPanelAction::JoinCodeRequested { code: "abc".to_string() },
        SessionPanelAction::JoinLocalRequested { address: "abc".to_string() }
    );
    let button = ToolbarButton { glyph: 'B', tool: "brush" };
    assert_eq!(button.tool, "brush");
}

#[test]
fn event_log_is_capped_at_three_lines() {
    let mut state = SessionPanelState::new();
    state.push_event("one".to_string());
    state.push_event("two".to_string());
    state.push_event("three".to_string());
    state.push_event("four".to_string());
    assert_eq!(state.events, vec!["two", "three", "four"]);
}

#[test]
fn status_label_reflects_only_synced_truth() {
    let mut state = SessionPanelState::new();

    assert_eq!(state.status_label(), "OFFLINE");

    state.in_session = true;
    state.is_host = true;
    assert_eq!(state.status_label(), "HOSTING");

    state.is_host = false;
    state.peer_count = 3;
    assert_eq!(state.status_label(), "CONNECTED (3)");

    state.connected = false;
    state.reconnecting = true;
    assert_eq!(state.status_label(), "RECONNECTING...");

    state.reconnecting = false;
    state.session_ended = true;
    assert_eq!(state.status_label(), "ENDED");
}

#[test]
fn the_status_label_reads_the_fields_in_order() {
    assert_eq!(session_status_label(false, false, false, false, 0), "OFFLINE");
    assert_eq!(session_status_label(false, false, true, true, 0), "HOSTING");
    assert_eq!(session_status_label(false, false, true, false, 3), "CONNECTED (3)");
    assert_eq!(session_status_label(false, true, true, false, 3), "RECONNECTING...");
    assert_eq!(session_status_label(true, false, true, false, 3), "ENDED");
}

#[test]
fn a_paste_request_becomes_the_action_only_when_nothing_is_queued() {
    let mut state = SessionPanelState::new();
    assert_eq!(state.take_pending_action(false), None);
    assert_eq!(state.take_pending_action(true), Some(SessionPanelAction::PasteCodeRequested));
    assert_eq!(state.take_pending_action(false), None);
    state.queue_action(SessionPanelAction::HostRequested);
    assert_eq!(state.take_pending_action(true), Some(SessionPanelAction::HostRequested));
    assert_eq!(state.take_pending_action(false), None);
}

#[test]
fn sync_refreshes_truth_and_keeps_the_panels_memory() {
    let mut state = SessionPanelState::new();
    state.push_event("joined bob".to_string());
    state.queue_action(SessionPanelAction::CopyCode);
    state.sync(true, true, true, false, false, 2, Some("abc123-def456".to_string()), Vec::new(), "Me".to_string());
    state.sync_relay_note(Some("relay down".to_string()));
    state.sync_discovered(vec![SessionDiscoveredHost { name: "Studio".to_string(), address: "192.168.1.9:4747".to_string() }]);
    assert!(state.in_session && state.is_host && state.connected);
    assert_eq!(state.peer_count, 2);
    assert_eq!(state.net_code.as_deref(), Some("abc123-def456"));
    assert_eq!(state.relay_note.as_deref(), Some("relay down"));
    assert_eq!(state.discovered.len(), 1);
    assert_eq!(state.self_display_name, "Me");
    assert_eq!(state.events, vec!["joined bob"]);
    assert_eq!(state.take_pending_action(false), Some(SessionPanelAction::CopyCode));
    state.sync_relay_note(None);
    assert_eq!(state.relay_note, None);
}

#[test]
fn the_event_log_keeps_short_histories_whole() {
    let mut events: Vec<String> = Vec::new();
    push_session_event(&mut events, "a".to_string());
    assert_eq!(events, vec!["a"]);
    push_session_event(&mut events, "b".to_string());
    assert_eq!(events.last().unwrap(), "b");
    assert_eq!(events.len(), 2);
}

fn sample_buttons() -> Vec<ToolbarButton> {
    vec![
        ToolbarButton { glyph: 'B', tool: "brush" },
        ToolbarButton { glyph: 'E', tool: "eraser" },
        ToolbarButton { glyph: 'F', tool: "fill" },
    ]
}

#[test]
fn first_button_is_active_by_default() {
    let toolbar = ToolbarModule::new("toolbar", 0, sample_buttons());
    assert_eq!(toolbar.active_tool(), Some("brush"));
}

#[test]
fn clicking_a_button_makes_it_active() {
    let mut toolbar = ToolbarModule::new("toolbar", 0, sample_buttons());
    toolbar.click(2);
    assert_eq!(toolbar.active_tool(), Some("eraser"));
}

#[test]
fn click_outside_buttons_is_ignored() {
    let mut toolbar = ToolbarModule::new("toolbar", 0, sample_buttons());
    toolbar.click(9);
    assert_eq!(toolbar.active_tool(), Some("brush"));
}

#[test]
fn a_click_counts_columns_from_the_toolbars_left_edge() {
    let mut toolbar = ToolbarModule::new("toolbar", 10, sample_buttons());
    toolbar.click(15);
    assert_eq!(toolbar.active_tool(), Some("fill"));
    toolbar.click(9);
    assert_eq!(toolbar.active_tool(), Some("brush"));
    toolbar.click(14);
    toolbar.click(7);
    assert_eq!(toolbar.active_tool(), Some("fill"));
    let empty = ToolbarModule::new("empty", 0, Vec::new());
    assert_eq!(empty.active_tool(), None);
}
