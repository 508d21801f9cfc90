use player::display::{classify, display_cycle, plan_action, Observation, SurfaceAction};
use player::mailbox::Mailbox;
use player::player::{Instruction, MediaState, PlayerState};
use player::register::Register;
use player::remote::{
    duration_secs, forward_instruction, is_playing, media_state, pause_instruction,
    position_secs, resume_instruction, rewind_instruction, state_path, stop_instruction,
};

const STOPPED: &str = "https://video.is.stopped/";

#[test]
fn withdraw_with_nothing_pending_is_empty() {
    let mut m = Mailbox::new();
    assert!(m.withdraw().is_none());
}

#[test]
fn a_deposit_is_withdrawn_exactly_once() {
    let mut m = Mailbox::new();
    m.deposit(Instruction::Play("x".to_string(), 0));
    let first = m.withdraw();
    match first {
        Some(Instruction::Play(p, from)) => {
            assert_eq!(p, "x");
            assert_eq!(from, 0);
        },
        _ => panic!("expected the deposited instruction"),
    }
    assert!(m.withdraw().is_none());
}

#[test]
fn a_second_deposit_overwrites_the_first() {
    let mut m = Mailbox::new();
    m.deposit(Instruction::Play("first".to_string(), 0));
    m.deposit(Instruction::Stop);
    assert!(matches!(m.withdraw(), Some(Instruction::Stop)));
    assert!(m.withdraw().is_none());
}

#[test]
fn register_starts_idle() {
    let r = Register::new();
    assert!(matches!(r.read(), PlayerState::Idle));
}

#[test]
fn read_returns_what_was_published() {
    let mut r = Register::new();
    r.publish(PlayerState::Media(MediaState::Playing(
        "movies/a.mp4".to_string(),
        9000,
        1500,
    )));
    match r.read() {
        PlayerState::Media(MediaState::Playing(p, d, t)) => {
            assert_eq!(p, "movies/a.mp4");
            assert_eq!(d, 9000);
            assert_eq!(t, 1500);
        },
        _ => panic!("expected the published playing state"),
    }
}

#[test]
fn plan_for_stop_shows_the_sentinel() {
    match plan_action(&Instruction::Stop) {
        SurfaceAction::ShowStopped(s) => assert_eq!(s, STOPPED),
        _ => panic!("expected the stopped sentinel"),
    }
}

#[test]
fn plan_for_play_attaches_the_library_url() {
    match plan_action(&Instruction::Play("movies/a.mp4".to_string(), 2500)) {
        SurfaceAction::Start(url, from) => {
            assert_eq!(url, "/play/movies/a.mp4");
            assert_eq!(from, 2500);
        },
        _ => panic!("expected playback to start"),
    }
}

#[test]
fn plan_for_pause_attaches_and_suspends() {
    match plan_action(&Instruction::Pause("show/e.mp4".to_string(), 61000)) {
        SurfaceAction::Suspend(url, at) => {
            assert_eq!(url, "/play/show/e.mp4");
            assert_eq!(at, 61000);
        },
        _ => panic!("expected playback to suspend"),
    }
}

fn observe(src: &str, position: u64, paused: bool, duration: Option<u64>) -> Observation {
    Observation { src: src.to_string(), position, paused, duration }
}

#[test]
fn bare_or_sentinel_source_classifies_as_idle() {
    assert!(matches!(classify(&observe("", 0, true, None)), PlayerState::Idle));
    assert!(matches!(classify(&observe(STOPPED, 0, true, Some(1))), PlayerState::Idle));
}

#[test]
fn observed_url_is_stripped_back_to_the_library_path() {
    let o = observe("https://host.local/play/movies/a.mp4", 500, false, Some(9000));
    match classify(&o) {
        PlayerState::Media(MediaState::Playing(p, d, t)) => {
            assert_eq!(p, "movies/a.mp4");
            assert_eq!(d, 9000);
            assert_eq!(t, 500);
        },
        _ => panic!("expected a playing state"),
    }
}

#[test]
fn unparsable_source_falls_back_to_the_raw_string() {
    let o = observe("not a url at all", 0, false, Some(1000));
    match classify(&o) {
        PlayerState::Media(MediaState::Playing(p, _, _)) => assert_eq!(p, "not a url at all"),
        _ => panic!("expected a playing state"),
    }
}

#[test]
fn paused_surface_classifies_as_paused() {
    let o = observe("https://host.local/play/a.mp4", 100, true, Some(2000));
    assert!(matches!(
        classify(&o),
        PlayerState::Media(MediaState::Paused(_, _, _))
    ));
}

#[test]
fn unknown_duration_is_published_as_zero() {
    let o = observe("https://host.local/play/a.mp4", 100, false, None);
    match classify(&o) {
        PlayerState::Media(MediaState::Playing(_, d, _)) => assert_eq!(d, 0),
        _ => panic!("expected a playing state"),
    }
}

#[test]
fn remote_views_split_gate_and_payload() {
    let idle = PlayerState::Idle;
    assert!(!is_playing(&idle));
    assert!(media_state(&idle).is_none());
    let active = PlayerState::Media(MediaState::Paused("a".to_string(), 5000, 1000));
    assert!(is_playing(&active));
    match media_state(&active) {
        Some(MediaState::Paused(p, d, t)) => {
            assert_eq!(p, "a");
            assert_eq!(d, 5000);
            assert_eq!(t, 1000);
        },
        _ => panic!("expected the paused payload"),
    }
}

#[test]
fn displayed_figures_are_whole_seconds() {
    let m = MediaState::Playing("a".to_string(), 61500, 1999);
    assert_eq!(duration_secs(&m), 61);
    assert_eq!(position_secs(&m), 1);
    assert_eq!(state_path(&m), "a");
}

#[test]
fn transport_controls_skip_a_fixed_minute() {
    let m = MediaState::Playing("a".to_string(), 600000, 130500);
    match rewind_instruction(&m) {
        Instruction::Play(p, from) => {
            assert_eq!(p, "a");
            assert_eq!(from, 70000);
        },
        _ => panic!("expected a play instruction"),
    }
    match forward_instruction(&m) {
        Instruction::Play(_, from) => assert_eq!(from, 190000),
        _ => panic!("expected a play instruction"),
    }
    match resume_instruction(&m) {
        Instruction::Play(_, from) => assert_eq!(from, 130000),
        _ => panic!("expected a play instruction"),
    }
    match pause_instruction(&m) {
        Instruction::Pause(_, at) => assert_eq!(at, 130000),
        _ => panic!("expected a pause instruction"),
    }
    assert!(matches!(stop_instruction(), Instruction::Stop));
}

#[test]
fn rewind_near_the_start_stops_at_zero() {
    let m = MediaState::Playing("a".to_string(), 600000, 59999);
    match rewind_instruction(&m) {
        Instruction::Play(_, from) => assert_eq!(from, 0),
        _ => panic!("expected a play instruction"),
    }
}

#[test]
fn a_cycle_without_a_pending_command_still_publishes() {
    let o = observe("https://host.local/play/a.mp4", 100, true, Some(2000));
    let (action, state) = display_cycle(None, &o);
    assert!(action.is_none());
    match state {
        PlayerState::Media(MediaState::Paused(p, d, t)) => {
            assert_eq!(p, "a.mp4");
            assert_eq!(d, 2000);
            assert_eq!(t, 100);
        },
        _ => panic!("expected the observed state to be published"),
    }
}

#[test]
fn one_full_cycle_moves_a_command_to_the_register() {
    let mut mailbox = Mailbox::new();
    let mut register = Register::new();

    // the remote deposits a play command
    mailbox.deposit(Instruction::Play("movies/a.mp4".to_string(), 0));

    // the display's next heartbeat withdraws and applies it
    let pending = mailbox.withdraw().expect("a command was pending");
    let action = plan_action(&pending);
    let url = match action {
        SurfaceAction::Start(url, from) => {
            assert_eq!(from, 0);
            url
        },
        _ => panic!("expected playback to start"),
    };
    assert_eq!(url, "/play/movies/a.mp4");

    // the surface resolves the url and reports what it plays
    let observed = observe(
        &format!("https://display.local{}", url),
        0,
        false,
        Some(7200000),
    );
    register.publish(classify(&observed));

    // the remote's next heartbeat reads the result back
    let state = register.read();
    assert!(is_playing(&state));
    match media_state(&state) {
        Some(MediaState::Playing(p, d, t)) => {
            assert_eq!(p, "movies/a.mp4");
            assert_eq!(d, 7200000);
            assert_eq!(t, 0);
        },
        _ => panic!("expected the played medium back"),
    }

    // nothing is pending for the next heartbeat
    assert!(mailbox.withdraw().is_none());
}
