//! The interpretation-mode vocabulary of empty (blank) property blocks: how
//! an empty resolves between its neighbouring keyframes, and the ease
//! strengths its two ends can carry.

use vstd::prelude::*;
use crate::text::str_eq;

verus! {

/// How an empty block resolves between the keyframes around it.
#[derive(Debug, Clone, Copy, PartialEq, Eq)]
pub enum InterpMode {
    /// Blend from the left keyframe to the right one (the default).
    Interpolate,
    /// Keep the left keyframe's value.
    Hold,
    /// Repeat the track forward; only the trailing blank may carry it.
    LoopOut,
    /// Repeat the track backward; only the leading blank may carry it.
    LoopIn,
}

/// The stored name of a mode.
pub open spec fn mode_name_spec(mode: InterpMode) -> Seq<char> {
    match mode {
        InterpMode::Interpolate => "interpolate"@,
        InterpMode::Hold => "hold"@,
        InterpMode::LoopOut => "loop_out"@,
        InterpMode::LoopIn => "loop_in"@,
    }
}

/// The mode a stored interpretation name resolves to: unknown or missing
/// names resolve to the default interpolate mode.
pub open spec fn resolved_mode(name: Option<Seq<char>>) -> InterpMode {
    match name {
        Some(s) => if s == "hold"@ {
            InterpMode::Hold
        } else if s == "loop_out"@ {
            InterpMode::LoopOut
        } else if s == "loop_in"@ {
            InterpMode::LoopIn
        } else {
            InterpMode::Interpolate
        },
        None => InterpMode::Interpolate,
    }
}

/// The view of an optional stored name.
pub open spec fn name_view(name: Option<String>) -> Option<Seq<char>> {
    match name {
        Some(s) => Some(s@),
        None => None,
    }
}

/// The cycle order: interpolate, hold, loop out, loop in, then around.
pub open spec fn next_mode_spec(mode: InterpMode) -> InterpMode {
    match mode {
        InterpMode::Interpolate => InterpMode::Hold,
        InterpMode::Hold => InterpMode::LoopOut,
        InterpMode::LoopOut => InterpMode::LoopIn,
        InterpMode::LoopIn => InterpMode::Interpolate,
    }
}

/// Edge locking: `LoopOut` only on the last block, `LoopIn` only on the first.
pub open spec fn mode_allowed_at_spec(mode: InterpMode, is_first: bool, is_last: bool) -> bool {
    match mode {
        InterpMode::LoopOut => is_last,
        InterpMode::LoopIn => is_first,
        _ => true,
    }
}

/// The modes that use the ease strengths on the empty's two ends.
pub open spec fn mode_is_ease_adjustable_spec(mode: InterpMode) -> bool {
    mode == InterpMode::Interpolate
}

/// The ease strength that follows `current` in the cycle 0, 33, 66, 100
/// (unset counts as 0; a value off the cycle moves to the next step above
/// it, and 100 or more wraps to 0).
pub open spec fn next_ease_percent_spec(current: Option<u8>) -> u8 {
    let value = match current {
        Some(v) => v,
        None => 0u8,
    };
    if value < 33 {
        33
    } else if value < 66 {
        66
    } else if value < 100 {
        100
    } else {
        0
    }
}

pub proof fn lemma_mode_names_distinct()
    ensures
        "hold"@ != "loop_out"@,
        "hold"@ != "loop_in"@,
        "loop_out"@ != "loop_in"@,
        "interpolate"@ != "hold"@,
        "interpolate"@ != "loop_out"@,
        "interpolate"@ != "loop_in"@,
{
    reveal_strlit("hold");
    reveal_strlit("loop_out");
    reveal_strlit("loop_in");
    reveal_strlit("interpolate");
    assert("hold"@[0] != "loop_out"@[0]);
    assert("hold"@[0] != "loop_in"@[0]);
    assert("loop_out"@.len() != "loop_in"@.len());
    assert("interpolate"@[0] != "hold"@[0]);
    assert("interpolate"@[0] != "loop_out"@[0]);
    assert("interpolate"@[0] != "loop_in"@[0]);
}

/// Every mode's stored name resolves back to that mode.
pub proof fn lemma_mode_name_round_trip(mode: InterpMode)
    ensures
        resolved_mode(Some(mode_name_spec(mode))) == mode,
{
    lemma_mode_names_distinct();
}

/// Resolves a stored interpretation name.
pub fn resolve_mode(name: Option<&str>) -> (mode: InterpMode)
    ensures
        mode == resolved_mode(match name { Some(s) => Some(s@), None => None }),
{
    match name {
        Some(s) => if str_eq(s, "hold") {
            InterpMode::Hold
        } else if str_eq(s, "loop_out") {
            InterpMode::LoopOut
        } else if str_eq(s, "loop_in") {
            InterpMode::LoopIn
        } else {
            InterpMode::Interpolate
        },
        None => InterpMode::Interpolate,
    }
}

/// Resolves an optional stored name held as a `String`.
pub fn resolve_stored_mode(name: &Option<String>) -> (mode: InterpMode)
    ensures
        mode == resolved_mode(name_view(*name)),
{
    match name {
        Some(s) => resolve_mode(Some(s.as_str())),
        None => InterpMode::Interpolate,
    }
}

/// The stored name of a mode.
pub fn mode_name(mode: InterpMode) -> (name: &'static str)
    ensures
        name@ == mode_name_spec(mode),
{
    match mode {
        InterpMode::Interpolate => "interpolate",
        InterpMode::Hold => "hold",
        InterpMode::LoopOut => "loop_out",
        InterpMode::LoopIn => "loop_in",
    }
}

/// The mode after the one a stored name resolves to.
pub fn next_mode(current: InterpMode) -> (next: InterpMode)
    ensures
        next == next_mode_spec(current),
{
    match current {
        InterpMode::Interpolate => InterpMode::Hold,
        InterpMode::Hold => InterpMode::LoopOut,
        InterpMode::LoopOut => InterpMode::LoopIn,
        InterpMode::LoopIn => InterpMode::Interpolate,
    }
}

pub fn mode_allowed_at(mode: InterpMode, is_first: bool, is_last: bool) -> (allowed: bool)
    ensures
        allowed == mode_allowed_at_spec(mode, is_first, is_last),
{
    match mode {
        InterpMode::LoopOut => is_last,
        InterpMode::LoopIn => is_first,
        _ => true,
    }
}

pub fn mode_is_ease_adjustable(mode: InterpMode) -> (adjustable: bool)
    ensures
        adjustable == mode_is_ease_adjustable_spec(mode),
{
    match mode {
        InterpMode::Interpolate => true,
        _ => false,
    }
}

pub fn next_ease_percent(current: Option<u8>) -> (next: u8)
    ensures
        next == next_ease_percent_spec(current),
{
    let value = match current {
        Some(v) => v,
        None => 0,
    };
    if value < 33 {
        33
    } else if value < 66 {
        66
    } else if value < 100 {
        100
    } else {
        0
    }
}

} // verus!
