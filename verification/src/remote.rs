//! The remote side of the synchronization loop: the two views a remote
//! derives from the register's state (the boolean playback gate and the
//! media payload), the whole-second figures it displays, and the
//! instructions its transport controls deposit.

use vstd::prelude::*;

use crate::player::{Instruction, InstructionView, MediaState, MediaStateView, PlayerState, PlayerStateView};

verus! {

/// How far one transport press skips, in whole seconds.
pub const SKIP_SECONDS: u64 = 60;

/// The path a media state refers to.
pub open spec fn spec_path(m: MediaStateView) -> Seq<char> {
    match m {
        MediaStateView::Paused { path, .. } => path,
        MediaStateView::Playing { path, .. } => path,
    }
}

/// The duration a media state carries, in milliseconds.
pub open spec fn spec_duration(m: MediaStateView) -> int {
    match m {
        MediaStateView::Paused { duration, .. } => duration,
        MediaStateView::Playing { duration, .. } => duration,
    }
}

/// The position a media state carries, in milliseconds.
pub open spec fn spec_position(m: MediaStateView) -> int {
    match m {
        MediaStateView::Paused { position, .. } => position,
        MediaStateView::Playing { position, .. } => position,
    }
}

/// The boolean gate the remote renders controls behind: is any medium
/// attached at all?
pub fn is_playing(s: &PlayerState) -> (r: bool)
    ensures
        r == (s@ is Media),
{
    match s {
        PlayerState::Media(_) => true,
        _ => false,
    }
}

/// The media payload of the state, when there is one.
pub fn media_state(s: &PlayerState) -> (r: Option<MediaState>)
    ensures
        r is Some <==> s@ is Media,
        r matches Some(m) ==> s@ == PlayerStateView::Media(m@),
{
    match s {
        PlayerState::Media(m) => Some(m.duplicate()),
        _ => None,
    }
}

/// The path of the current medium.
pub fn state_path(m: &MediaState) -> (r: String)
    ensures
        r@ == spec_path(m@),
{
    match m {
        MediaState::Paused(p, _, _) => p.clone(),
        MediaState::Playing(p, _, _) => p.clone(),
    }
}

/// The duration, floored to whole seconds for display.
pub fn duration_secs(m: &MediaState) -> (r: u64)
    ensures
        r == spec_duration(m@) / 1000,
{
    match m {
        MediaState::Paused(_, d, _) => *d / 1000,
        MediaState::Playing(_, d, _) => *d / 1000,
    }
}

/// The position, floored to whole seconds for display.
pub fn position_secs(m: &MediaState) -> (r: u64)
    ensures
        r == spec_position(m@) / 1000,
{
    match m {
        MediaState::Paused(_, _, t) => *t / 1000,
        MediaState::Playing(_, _, t) => *t / 1000,
    }
}

/// Milliseconds of the whole second `SKIP_SECONDS` before `pos`, stopping
/// at zero (positions are non-negative, so a rewind near the start lands
/// on the very beginning).
pub open spec fn rewind_target(pos: int) -> int {
    if pos / 1000 >= SKIP_SECONDS {
        (pos / 1000 - SKIP_SECONDS) * 1000
    } else {
        0
    }
}

/// Milliseconds of the whole second `SKIP_SECONDS` after `pos`, stopping at
/// the last whole second a `u64` of milliseconds can hold.
pub open spec fn forward_target(pos: int) -> int {
    if pos / 1000 + SKIP_SECONDS <= u64::MAX / 1000 {
        (pos / 1000 + SKIP_SECONDS) * 1000
    } else {
        (u64::MAX / 1000) * 1000
    }
}

/// The play control: resume the current medium at its last known position,
/// floored to a whole second.
pub fn resume_instruction(m: &MediaState) -> (i: Instruction)
    ensures
        i@ == (InstructionView::Play {
            path: spec_path(m@),
            from: (spec_position(m@) / 1000) * 1000,
        }),
{
    let secs = position_secs(m);
    Instruction::Play(state_path(m), secs * 1000)
}

/// The rewind control: skip back from the last known position.
pub fn rewind_instruction(m: &MediaState) -> (i: Instruction)
    ensures
        i@ == (InstructionView::Play { path: spec_path(m@), from: rewind_target(spec_position(m@)) }),
{
    let secs = position_secs(m);
    let target: u64 = if secs >= SKIP_SECONDS {
        (secs - SKIP_SECONDS) * 1000
    } else {
        0
    };
    Instruction::Play(state_path(m), target)
}

/// The fast-forward control: skip ahead from the last known position.
pub fn forward_instruction(m: &MediaState) -> (i: Instruction)
    ensures
        i@ == (InstructionView::Play {
            path: spec_path(m@),
            from: forward_target(spec_position(m@)),
        }),
{
    let secs = position_secs(m);
    let target: u64 = if secs <= u64::MAX / 1000 - SKIP_SECONDS {
        (secs + SKIP_SECONDS) * 1000
    } else {
        (u64::MAX / 1000) * 1000
    };
    Instruction::Play(state_path(m), target)
}

/// The pause control: suspend the current medium at its last known
/// position, floored to a whole second.
pub fn pause_instruction(m: &MediaState) -> (i: Instruction)
    ensures
        i@ == (InstructionView::Pause {
            path: spec_path(m@),
            at: (spec_position(m@) / 1000) * 1000,
        }),
{
    let secs = position_secs(m);
    Instruction::Pause(state_path(m), secs * 1000)
}

/// The stop control.
pub fn stop_instruction() -> (i: Instruction)
    ensures
        i@ is Stop,
{
    Instruction::Stop
}

} // verus!
