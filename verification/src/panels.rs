//! The plain values of the smaller painter panels: the drawing-space wheel
//! mode, toolbar buttons, and the session panel's rows, actions, status
//! line and event lines.

use vstd::prelude::*;
use crate::text::{chars_of, string_of, push_str, push_decimal, decimal, owned};

verus! {

/// What the mouse wheel does over the drawing space.
#[derive(Debug, Clone, Copy, PartialEq, Eq, Structural)]
pub enum DrawingSpaceWheelMode {
    Pan,
    Depth,
    /// Steps the playhead through time, wrapping at the loop-window edges.
    Time,
}

/// The mode the wheel-mode button switches to next.
pub open spec fn next_wheel_mode(m: DrawingSpaceWheelMode) -> DrawingSpaceWheelMode {
    match m {
        DrawingSpaceWheelMode::Pan => DrawingSpaceWheelMode::Depth,
        DrawingSpaceWheelMode::Depth => DrawingSpaceWheelMode::Time,
        DrawingSpaceWheelMode::Time => DrawingSpaceWheelMode::Pan,
    }
}

impl DrawingSpaceWheelMode {
    /// The letter the wheel-mode button shows.
    pub fn glyph(self) -> (c: char)
        ensures
            c == (match self {
                DrawingSpaceWheelMode::Pan => 'P',
                DrawingSpaceWheelMode::Depth => 'D',
                DrawingSpaceWheelMode::Time => 'T',
            }),
    {
        match self {
            DrawingSpaceWheelMode::Pan => 'P',
            DrawingSpaceWheelMode::Depth => 'D',
            DrawingSpaceWheelMode::Time => 'T',
        }
    }

    /// Pan, then depth, then time, then pan again.
    pub fn cycle(self) -> (r: Self)
        ensures
            r == next_wheel_mode(self),
    {
        match self {
            DrawingSpaceWheelMode::Pan => DrawingSpaceWheelMode::Depth,
            DrawingSpaceWheelMode::Depth => DrawingSpaceWheelMode::Time,
            DrawingSpaceWheelMode::Time => DrawingSpaceWheelMode::Pan,
        }
    }
}

/// Three presses of the wheel-mode button come back to where they began,
/// and no fewer do.
pub proof fn law_wheel_mode_cycle(m: DrawingSpaceWheelMode)
    ensures
        next_wheel_mode(next_wheel_mode(next_wheel_mode(m))) == m,
        next_wheel_mode(m) != m,
        next_wheel_mode(next_wheel_mode(m)) != m,
{
}

/// One tool button of the toolbar: the glyph drawn and the tool it selects.
#[derive(Debug, Clone, Copy, PartialEq, Eq)]
pub struct ToolbarButton {
    pub glyph: char,
    pub tool: &'static str,
}

/// The toolbar: a row of tool buttons, two columns apart from the left edge
/// of its rect, one of them active. Drawing it is the renderer's work; the
/// choice a click makes is here.
pub struct ToolbarModule {
    pub id: String,
    /// The left column of the toolbar's rect.
    pub x0: i32,
    pub buttons: Vec<ToolbarButton>,
    pub active_index: usize,
}

/// The button index a click at column offset `d` from the rect's left edge
/// names: two columns per button, the quotient rounded toward zero.
pub open spec fn clicked_index(d: int) -> int {
    if d >= 0 { d / 2 } else { -((-d) / 2) }
}

impl ToolbarModule {
    /// A toolbar whose first button is active.
    pub fn new(id: &str, x0: i32, buttons: Vec<ToolbarButton>) -> (t: Self)
        ensures
            t.id@ == id@,
            t.x0 == x0,
            t.buttons@ == buttons@,
            t.active_index == 0,
    {
        ToolbarModule { id: owned(id), x0, buttons, active_index: 0 }
    }

    /// The active button's tool, if the active index names a button.
    pub fn active_tool(&self) -> (r: Option<&'static str>)
        ensures
            r == (if self.active_index < self.buttons@.len() {
                Some(self.buttons@[self.active_index as int].tool)
            } else {
                None
            }),
    {
        if self.active_index < self.buttons.len() {
            Some(self.buttons[self.active_index].tool)
        } else {
            None
        }
    }

    /// A click at column `x` activates the button it falls on; a click that
    /// names no button is ignored.
    pub fn click(&mut self, x: i32)
        requires
            i32::MIN <= x - old(self).x0 <= i32::MAX,
        ensures
            final(self).id == old(self).id,
            final(self).x0 == old(self).x0,
            final(self).buttons == old(self).buttons,
            final(self).active_index == (if 0 <= clicked_index(x - old(self).x0) < old(self).buttons@.len() {
                clicked_index(x - old(self).x0)
            } else {
                old(self).active_index as int
            }),
    {
        let d: i32 = x - self.x0;
        let idx: i32 = if d >= 0 {
            d / 2
        } else if d == -1 {
            0
        } else {
            -1
        };
        proof {
            if d < -1 {
                assert(clicked_index(d as int) < 0) by (nonlinear_arith)
                    requires
                        d < -1,
                        clicked_index(d as int) == -((-d) / 2);
            }
        }
        if idx >= 0 && (idx as usize) < self.buttons.len() {
            self.active_index = idx as usize;
        }
    }
}

/// One roster row as synced from the live session; the host comes first.
#[derive(Debug, Clone, PartialEq, Eq)]
pub struct SessionRosterRow {
    pub user_id: String,
    pub display_name: String,
    pub is_host: bool,
    pub is_you: bool,
    /// The user's presence colour, 8-bit RGB.
    pub color: [u8; 3],
}

/// One host found on the local network.
#[derive(Debug, Clone, PartialEq, Eq)]
pub struct SessionDiscoveredHost {
    pub name: String,
    pub address: String,
}

/// A user action requested through the session panel.
#[derive(Debug, Clone, PartialEq, Eq)]
pub enum SessionPanelAction {
    HostRequested,
    JoinCodeRequested { code: String },
    JoinLocalRequested { address: String },
    PasteCodeRequested,
    CopyCode,
    LeaveRequested,
    SetDisplayName(String),
}

/// The session panel keeps this many event lines.
pub const EVENT_LINES: usize = 3;

/// The first `max` characters of a text (all of it when shorter).
pub fn truncate_to_width(text: &str, max: usize) -> (r: String)
    ensures
        r@ == text@.take(if max < text@.len() { max as int } else { text@.len() as int }),
{
    let cs = chars_of(text);
    let mut out: Vec<char> = Vec::new();
    let mut i: usize = 0;
    while i < cs.len() && i < max
        invariant
            cs@ == text@,
            i <= cs@.len(),
            i <= max,
            out@ == cs@.take(i as int),
        decreases cs@.len() - i,
    {
        out.push(cs[i]);
        proof {
            assert(cs@.take(i + 1) =~= cs@.take(i as int).push(cs@[i as int]));
        }
        i = i + 1;
    }
    string_of(&out)
}

/// The event lines after one more: the newest `EVENT_LINES`, oldest first.
pub open spec fn events_after(events: Seq<String>, event: String) -> Seq<String> {
    let all = events.push(event);
    if all.len() > EVENT_LINES { all.skip(all.len() - EVENT_LINES) } else { all }
}

/// Pushes one event line onto the session panel's lines, keeping the
/// newest three.
pub fn push_session_event(events: &mut Vec<String>, event: String)
    ensures
        final(events)@ == events_after(old(events)@, event),
{
    let ghost all = old(events)@.push(event);
    events.push(event);
    if events.len() > EVENT_LINES {
        let excess = events.len() - EVENT_LINES;
        let mut kept: Vec<String> = Vec::new();
        let mut i = excess;
        while i < events.len()
            invariant
                events@ == all,
                excess <= i <= all.len(),
                excess == all.len() - EVENT_LINES,
                kept@ == all.subrange(excess as int, i as int),
            decreases all.len() - i,
        {
            kept.push(events[i].clone());
            i = i + 1;
        }
        proof {
            assert(kept@ =~= all.skip(all.len() - EVENT_LINES));
        }
        *events = kept;
    }
}

/// The session panel shows at most `EVENT_LINES` events, the newest last,
/// and keeps the ones before it in order.
pub proof fn law_event_lines_capped(events: Seq<String>, event: String)
    ensures
        events.len() < EVENT_LINES ==> events_after(events, event) == events.push(event),
        events.len() >= EVENT_LINES ==> events_after(events, event).len() == EVENT_LINES,
        events_after(events, event).last() == event,
{
    let all = events.push(event);
    if all.len() > EVENT_LINES {
        assert(all.skip(all.len() - EVENT_LINES).last() == all.last());
    }
}

/// The one-line session status: ended, reconnecting, hosting, connected
/// with the number of peers, or offline, in that order of precedence.
pub open spec fn status_label_spec(session_ended: bool, reconnecting: bool, in_session: bool, is_host: bool, peer_count: usize) -> Seq<char> {
    if session_ended {
        "ENDED"@
    } else if reconnecting {
        "RECONNECTING..."@
    } else if in_session && is_host {
        "HOSTING"@
    } else if in_session {
        "CONNECTED ("@ + decimal(peer_count as nat) + ")"@
    } else {
        "OFFLINE"@
    }
}

/// The session status line, derived from the synced fields alone.
pub fn session_status_label(session_ended: bool, reconnecting: bool, in_session: bool, is_host: bool, peer_count: usize) -> (r: String)
    ensures
        r@ == status_label_spec(session_ended, reconnecting, in_session, is_host, peer_count),
{
    if session_ended {
        return owned("ENDED");
    }
    if reconnecting {
        return owned("RECONNECTING...");
    }
    if in_session && is_host {
        return owned("HOSTING");
    }
    if in_session {
        let mut s = owned("CONNECTED (");
        push_decimal(&mut s, peer_count as u64);
        push_str(&mut s, ")");
        return s;
    }
    owned("OFFLINE")
}

/// The session panel's state shared with the code that runs the session:
/// the session truth synced each frame, the panel's own event lines and at
/// most one queued action. The join-code text field is drawn and edited by
/// the renderer; its paste request reaches `take_pending_action` as a flag.
pub struct SessionPanelState {
    /// True while this app takes part in a session (either side).
    pub in_session: bool,
    /// True when this app hosts.
    pub is_host: bool,
    pub connected: bool,
    pub reconnecting: bool,
    pub session_ended: bool,
    /// Other users in the session.
    pub peer_count: usize,
    /// The invite code while hosting over the relay.
    pub net_code: Option<String>,
    /// Why the relay lane is degraded, if it is.
    pub relay_note: Option<String>,
    /// Hosts the newest local scan found.
    pub discovered: Vec<SessionDiscoveredHost>,
    /// The roster, host first.
    pub roster: Vec<SessionRosterRow>,
    pub self_display_name: String,
    /// The newest event lines, oldest first.
    pub events: Vec<String>,
    /// The action waiting to be taken; set through `queue_action`.
    pub pending_action: Option<SessionPanelAction>,
}

impl SessionPanelState {
    /// The action waiting to be taken.
    pub open spec fn pending_spec(&self) -> Option<SessionPanelAction> {
        self.pending_action
    }

    /// An offline panel with no events and nothing queued.
    pub fn new() -> (s: Self)
        ensures
            !s.in_session && !s.is_host && !s.connected && !s.reconnecting && !s.session_ended,
            s.peer_count == 0,
            s.net_code is None,
            s.relay_note is None,
            s.discovered@.len() == 0,
            s.roster@.len() == 0,
            s.self_display_name@.len() == 0,
            s.events@.len() == 0,
            s.pending_spec() is None,
    {
        SessionPanelState {
            in_session: false,
            is_host: false,
            connected: false,
            reconnecting: false,
            session_ended: false,
            peer_count: 0,
            net_code: None,
            relay_note: None,
            discovered: Vec::new(),
            roster: Vec::new(),
            self_display_name: String::new(),
            events: Vec::new(),
            pending_action: None,
        }
    }

    /// Pushes one event line, keeping the newest `EVENT_LINES`.
    pub fn push_event(&mut self, event: String)
        ensures
            final(self).events@ == events_after(old(self).events@, event),
            final(self).pending_spec() == old(self).pending_spec(),
            final(self).in_session == old(self).in_session,
            final(self).peer_count == old(self).peer_count,
    {
        push_session_event(&mut self.events, event);
    }

    /// The one-line session status, from the synced fields alone.
    pub fn status_label(&self) -> (r: String)
        ensures
            r@ == status_label_spec(self.session_ended, self.reconnecting, self.in_session, self.is_host, self.peer_count),
    {
        session_status_label(self.session_ended, self.reconnecting, self.in_session, self.is_host, self.peer_count)
    }

    /// Queues an action, replacing any queued one.
    pub fn queue_action(&mut self, action: SessionPanelAction)
        ensures
            final(self).pending_spec() == Some(action),
            final(self).events == old(self).events,
    {
        self.pending_action = Some(action);
    }

    /// Takes the queued action. With nothing queued, a paste request from
    /// the code field (`paste_requested`) becomes a paste action; nothing
    /// stays queued afterwards.
    pub fn take_pending_action(&mut self, paste_requested: bool) -> (r: Option<SessionPanelAction>)
        ensures
            r == (if old(self).pending_spec() is None && paste_requested {
                Some(SessionPanelAction::PasteCodeRequested)
            } else {
                old(self).pending_spec()
            }),
            final(self).pending_spec() is None,
            final(self).events == old(self).events,
            final(self).in_session == old(self).in_session,
    {
        if self.pending_action.is_none() && paste_requested {
            self.pending_action = Some(SessionPanelAction::PasteCodeRequested);
        }
        let mut out: Option<SessionPanelAction> = None;
        std::mem::swap(&mut out, &mut self.pending_action);
        out
    }

    /// Refreshes the session truth; the event lines and the queued action
    /// stay.
    pub fn sync(
        &mut self,
        in_session: bool,
        is_host: bool,
        connected: bool,
        reconnecting: bool,
        session_ended: bool,
        peer_count: usize,
        net_code: Option<String>,
        roster: Vec<SessionRosterRow>,
        self_display_name: String,
    )
        ensures
            final(self).in_session == in_session,
            final(self).is_host == is_host,
            final(self).connected == connected,
            final(self).reconnecting == reconnecting,
            final(self).session_ended == session_ended,
            final(self).peer_count == peer_count,
            final(self).net_code == net_code,
            final(self).roster == roster,
            final(self).self_display_name == self_display_name,
            final(self).relay_note == old(self).relay_note,
            final(self).discovered == old(self).discovered,
            final(self).events == old(self).events,
            final(self).pending_spec() == old(self).pending_spec(),
    {
        self.in_session = in_session;
        self.is_host = is_host;
        self.connected = connected;
        self.reconnecting = reconnecting;
        self.session_ended = session_ended;
        self.peer_count = peer_count;
        self.net_code = net_code;
        self.roster = roster;
        self.self_display_name = self_display_name;
    }

    /// Refreshes the relay lane's note; `None` clears it.
    pub fn sync_relay_note(&mut self, relay_note: Option<String>)
        ensures
            final(self).relay_note == relay_note,
            final(self).events == old(self).events,
            final(self).pending_spec() == old(self).pending_spec(),
            final(self).in_session == old(self).in_session,
    {
        self.relay_note = relay_note;
    }

    /// Refreshes the hosts found on the local network; an empty list means
    /// none were found.
    pub fn sync_discovered(&mut self, discovered: Vec<SessionDiscoveredHost>)
        ensures
            final(self).discovered == discovered,
            final(self).events == old(self).events,
            final(self).pending_spec() == old(self).pending_spec(),
            final(self).in_session == old(self).in_session,
    {
        self.discovered = discovered;
    }
}

} // verus!
