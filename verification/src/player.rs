//! The shared data model of the playback protocol: the authoritative player
//! state, the media sub-state, and the instructions a remote issues.
//!
//! Times are whole milliseconds. A published duration is always known (an
//! unknown duration is collapsed to zero before publishing, see `display`).

use vstd::prelude::*;

verus! {

/// The root directory of the media library, as configured at startup.
#[derive(Clone)]
pub struct MediaRoot(pub String);

/// Authoritative playback status, replaced wholesale on each publish.
#[derive(Clone, Debug)]
pub enum PlayerState {
    Idle,
    Media(MediaState),
}

/// Playback status of an attached medium: path, duration and position,
/// both times in milliseconds.
#[derive(Clone, Debug)]
pub enum MediaState {
    Paused(String, u64, u64),
    Playing(String, u64, u64),
}

/// A single desired action, deposited by a remote and consumed at most once
/// by the display. Times in milliseconds.
#[derive(Clone, Debug)]
pub enum Instruction {
    Stop,
    Play(String, u64),
    Pause(String, u64),
}

/// Mathematical model of a `MediaState`.
pub enum MediaStateView {
    Paused { path: Seq<char>, duration: int, position: int },
    Playing { path: Seq<char>, duration: int, position: int },
}

/// Mathematical model of a `PlayerState`.
pub enum PlayerStateView {
    Idle,
    Media(MediaStateView),
}

/// Mathematical model of an `Instruction`.
pub enum InstructionView {
    Stop,
    Play { path: Seq<char>, from: int },
    Pause { path: Seq<char>, at: int },
}

impl View for MediaState {
    type V = MediaStateView;

    open spec fn view(&self) -> MediaStateView {
        match self {
            MediaState::Paused(p, d, t) => MediaStateView::Paused {
                path: p@,
                duration: *d as int,
                position: *t as int,
            },
            MediaState::Playing(p, d, t) => MediaStateView::Playing {
                path: p@,
                duration: *d as int,
                position: *t as int,
            },
        }
    }
}

impl View for PlayerState {
    type V = PlayerStateView;

    open spec fn view(&self) -> PlayerStateView {
        match self {
            PlayerState::Idle => PlayerStateView::Idle,
            PlayerState::Media(m) => PlayerStateView::Media(m@),
        }
    }
}

impl View for Instruction {
    type V = InstructionView;

    open spec fn view(&self) -> InstructionView {
        match self {
            Instruction::Stop => InstructionView::Stop,
            Instruction::Play(p, f) => InstructionView::Play { path: p@, from: *f as int },
            Instruction::Pause(p, a) => InstructionView::Pause { path: p@, at: *a as int },
        }
    }
}

/// Model of an `Option<Instruction>`, used by the mailbox contracts.
pub open spec fn opt_instruction_view(o: Option<Instruction>) -> Option<InstructionView> {
    match o {
        Some(i) => Some(i@),
        None => None,
    }
}

impl MediaState {
    /// A copy whose model is the same as this one's.
    pub fn duplicate(&self) -> (r: MediaState)
        ensures
            r@ == self@,
    {
        match self {
            MediaState::Paused(p, d, t) => MediaState::Paused(p.clone(), *d, *t),
            MediaState::Playing(p, d, t) => MediaState::Playing(p.clone(), *d, *t),
        }
    }
}

impl PlayerState {
    /// A copy whose model is the same as this one's.
    pub fn duplicate(&self) -> (r: PlayerState)
        ensures
            r@ == self@,
    {
        match self {
            PlayerState::Idle => PlayerState::Idle,
            PlayerState::Media(m) => PlayerState::Media(m.duplicate()),
        }
    }
}

impl Instruction {
    /// A copy whose model is the same as this one's.
    pub fn duplicate(&self) -> (r: Instruction)
        ensures
            r@ == self@,
    {
        match self {
            Instruction::Stop => Instruction::Stop,
            Instruction::Play(p, f) => Instruction::Play(p.clone(), *f),
            Instruction::Pause(p, a) => Instruction::Pause(p.clone(), *a),
        }
    }
}

} // verus!
