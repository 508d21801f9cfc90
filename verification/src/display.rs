//! The display side of the synchronization loop: planning how a withdrawn
//! instruction acts on the playback surface, and classifying the surface's
//! observed state into the `PlayerState` that gets published.
//!
//! The surface itself (attaching a source, seeking, starting or suspending
//! playback) belongs to the host; this module computes what to do and what
//! to publish.

use vstd::prelude::*;

use crate::player::{Instruction, InstructionView, MediaStateView, PlayerState, PlayerStateView};
use crate::text::str_eq;
use crate::text::strip_prefix_str;

verus! {

/// The URL prefix under which the host serves library files to the surface.
pub open spec fn media_url_prefix() -> Seq<char> {
    "/play/"@
}

/// The sentinel source that marks a stopped surface.
pub open spec fn stopped_src() -> Seq<char> {
    "https://video.is.stopped/"@
}

/// What one withdrawn instruction asks of the playback surface: either show
/// the stopped sentinel, or attach a source URL, seek to a position in
/// milliseconds, and start or suspend playback.
pub enum SurfaceAction {
    ShowStopped(String),
    Start(String, u64),
    Suspend(String, u64),
}

/// Mathematical model of a `SurfaceAction`.
pub enum SurfaceActionView {
    ShowStopped(Seq<char>),
    Start { url: Seq<char>, from: int },
    Suspend { url: Seq<char>, at: int },
}

impl View for SurfaceAction {
    type V = SurfaceActionView;

    open spec fn view(&self) -> SurfaceActionView {
        match self {
            SurfaceAction::ShowStopped(s) => SurfaceActionView::ShowStopped(s@),
            SurfaceAction::Start(u, f) => SurfaceActionView::Start { url: u@, from: *f as int },
            SurfaceAction::Suspend(u, a) => SurfaceActionView::Suspend { url: u@, at: *a as int },
        }
    }
}

/// The action an instruction asks of the surface: `Stop` detaches by
/// pointing at the sentinel; `Play` and `Pause` attach the library URL of
/// the path and seek to the given position.
pub open spec fn planned_action(i: InstructionView) -> SurfaceActionView {
    match i {
        InstructionView::Stop => SurfaceActionView::ShowStopped(stopped_src()),
        InstructionView::Play { path, from } => SurfaceActionView::Start {
            url: media_url_prefix() + path,
            from: from,
        },
        InstructionView::Pause { path, at } => SurfaceActionView::Suspend {
            url: media_url_prefix() + path,
            at: at,
        },
    }
}

/// Turns an instruction into the action the surface must perform.
pub fn plan_action(i: &Instruction) -> (a: SurfaceAction)
    ensures
        a@ == planned_action(i@),
{
    match i {
        Instruction::Stop => SurfaceAction::ShowStopped(
            String::from_str("https://video.is.stopped/"),
        ),
        Instruction::Play(path, from) => {
            let url = String::from_str("/play/").concat(path.as_str());
            SurfaceAction::Start(url, *from)
        },
        Instruction::Pause(path, at) => {
            let url = String::from_str("/play/").concat(path.as_str());
            SurfaceAction::Suspend(url, *at)
        },
    }
}

/// What one heartbeat reads off the playback surface. The source is the raw
/// `src` attribute; times are milliseconds; a duration the surface does not
/// know yet is `None`.
pub struct Observation {
    pub src: String,
    pub position: u64,
    pub paused: bool,
    pub duration: Option<u64>,
}

/// Mathematical model of an `Observation`.
pub struct ObservationView {
    pub src: Seq<char>,
    pub position: int,
    pub paused: bool,
    pub duration: Option<int>,
}

impl View for Observation {
    type V = ObservationView;

    open spec fn view(&self) -> ObservationView {
        ObservationView {
            src: self.src@,
            position: self.position as int,
            paused: self.paused,
            duration: (match self.duration {
                Some(d) => Some(d as int),
                None => None,
            }),
        }
    }
}

/// The path component of `s` read as a URL, when `s` parses as one.
pub uninterp spec fn url_path_of(s: Seq<char>) -> Option<Seq<char>>;

/// Relies on `url::Url::parse` and `url::Url::path`: parsing is
/// deterministic in the input string alone (no base URL is supplied), and
/// `path` returns the parsed URL's path component.
#[verifier::external_body]
fn parse_url_path(src: &str) -> (r: Option<String>)
    ensures
        r is Some <==> url_path_of(src@) is Some,
        r matches Some(p) ==> url_path_of(src@) == Some(p@),
{
    match url::Url::parse(src) {
        Ok(u) => Some(u.path().to_string()),
        Err(_) => None,
    }
}

/// Model of an `Option<String>`.
pub open spec fn opt_str_view(o: Option<String>) -> Option<Seq<char>> {
    match o {
        Some(s) => Some(s@),
        None => None,
    }
}

/// The library path read back from a source string and the path component
/// its URL parse produced: the parsed path with the library URL prefix
/// stripped, the parsed path itself when that prefix is absent, or the raw
/// source when it did not parse as a URL at all (best-effort degradation).
pub open spec fn media_path_view(src: Seq<char>, parsed: Option<Seq<char>>) -> Seq<char> {
    match parsed {
        Some(p) => if media_url_prefix().is_prefix_of(p) {
            p.skip(media_url_prefix().len() as int)
        } else {
            p
        },
        None => src,
    }
}

/// Recovers the library path from a raw source string, given the path
/// component of its URL parse (or `None` when it did not parse).
pub fn media_path_from(src: &String, parsed: Option<String>) -> (r: String)
    ensures
        r@ == media_path_view(src@, opt_str_view(parsed)),
{
    match parsed {
        Some(p) => {
            match strip_prefix_str(p.as_str(), "/play/") {
                Some(t) => t,
                None => p,
            }
        },
        None => src.clone(),
    }
}

/// The library path the display reads back from a surface source string.
pub open spec fn observed_path(src: Seq<char>) -> Seq<char> {
    media_path_view(src, url_path_of(src))
}

/// The state the display publishes for an observation: `Idle` for a bare or
/// sentinel source; otherwise the observed medium, `Paused` exactly when the
/// surface is paused, with an unknown duration collapsed to zero.
pub open spec fn classify_view(o: ObservationView) -> PlayerStateView {
    if o.src == stopped_src() || o.src.len() == 0 {
        PlayerStateView::Idle
    } else {
        let dur = match o.duration {
            Some(d) => d,
            None => 0,
        };
        if o.paused {
            PlayerStateView::Media(
                MediaStateView::Paused { path: observed_path(o.src), duration: dur, position: o.position },
            )
        } else {
            PlayerStateView::Media(
                MediaStateView::Playing { path: observed_path(o.src), duration: dur, position: o.position },
            )
        }
    }
}

/// Classifies an observation into the state to publish.
pub fn classify(o: &Observation) -> (r: PlayerState)
    ensures
        r@ == classify_view(o@),
{
    if str_eq(o.src.as_str(), "https://video.is.stopped/") || o.src.as_str().unicode_len() == 0 {
        PlayerState::Idle
    } else {
        let dur: u64 = match o.duration {
            Some(d) => d,
            None => 0,
        };
        let parsed = parse_url_path(o.src.as_str());
        let path = media_path_from(&o.src, parsed);
        if o.paused {
            PlayerState::Media(crate::player::MediaState::Paused(path, dur, o.position))
        } else {
            PlayerState::Media(crate::player::MediaState::Playing(path, dur, o.position))
        }
    }
}

/// One display heartbeat as a pure decision, with no memory of prior
/// ticks: what the surface must do for the withdrawn instruction (nothing
/// when none was pending), and what to publish for the state observed
/// afterwards.
pub fn display_cycle(pending: Option<Instruction>, observed: &Observation) -> (r: (
    Option<SurfaceAction>,
    PlayerState,
))
    ensures
        pending is None <==> r.0 is None,
        (match pending {
            Some(i) => r.0 matches Some(a) && a@ == planned_action(i@),
            None => true,
        }),
        r.1@ == classify_view(observed@),
{
    let action = match pending {
        Some(i) => Some(plan_action(&i)),
        None => None,
    };
    (action, classify(observed))
}

/// One play command travels the whole loop intact: the action planned for
/// `Play(path, from)` attaches the library URL of that path and seeks to
/// that position (the mailbox contracts add that the display withdraws
/// exactly the deposited command, at most once); and when the display then
/// observes an attached, unpaused surface, what it publishes — and any
/// remote thereafter reads — is a playing state carrying the surface's
/// position, with its path recovered from the source string.
pub proof fn lemma_play_cycle(path: Seq<char>, from: int, o: ObservationView)
    requires
        o.src.len() != 0,
        o.src != stopped_src(),
        !o.paused,
    ensures
        planned_action(InstructionView::Play { path, from }) == (SurfaceActionView::Start {
            url: media_url_prefix() + path,
            from: from,
        }),
        classify_view(o) is Media,
        classify_view(o) matches PlayerStateView::Media(m) ==> m == (MediaStateView::Playing {
            path: observed_path(o.src),
            duration: (match o.duration {
                Some(d) => d,
                None => 0,
            }),
            position: o.position,
        }),
{
}

/// An unknown duration never reaches the register: whatever else the
/// observation holds, the classified state carries duration zero.
pub proof fn lemma_unknown_duration_collapses(o: ObservationView)
    requires
        o.duration is None,
    ensures
        classify_view(o) matches PlayerStateView::Media(m) ==> (match m {
            MediaStateView::Paused { duration, .. } => duration == 0,
            MediaStateView::Playing { duration, .. } => duration == 0,
        }),
{
}

} // verus!
