use looper::display::trim_report;
use looper::session::{
    advance, auto_latency, handle_event, new_session, settle, stops_capture, Action, Audio, Command,
    Key, KeyKind, Plan, Session, State, Status, TerminalEvent, FALLBACK_LATENCY_MS,
};

const AUDIO: Audio = Audio { device_channels: 6, used_channels: 2 };

fn press(key: Key) -> TerminalEvent {
    TerminalEvent::Key { key, kind: KeyKind::Press, modifiers: 0 }
}

#[test]
fn idle_starts_to_record() {
    assert_eq!(
        advance(State::Idle, AUDIO, 0, 0, 0),
        Plan {
            action: Action::StartCapture { device_channels: 6, used_channels: 2 },
            next: State::Recording,
            status: Status::Recording,
        }
    );
}

#[test]
fn a_recording_becomes_a_loop_of_its_whole_frames() {
    assert_eq!(
        advance(State::Recording, AUDIO, 9, 0, 0),
        Plan {
            action: Action::StartPlayback { start_frame: 0, loop_frames: 4, recorded_channels: 2 },
            next: State::Looping { loop_frames: 4 },
            status: Status::Looping,
        }
    );
}

#[test]
fn a_recording_without_a_frame_is_given_up() {
    for captured in [0, 1] {
        assert_eq!(
            advance(State::Recording, AUDIO, captured, 0, 0),
            Plan {
                action: Action::Nothing,
                next: State::Idle,
                status: Status::RecordedNothing,
            }
        );
    }
}

#[test]
fn no_channels_count_as_one_when_a_recording_is_measured() {
    let audio = Audio { device_channels: 0, used_channels: 0 };
    assert_eq!(
        advance(State::Recording, audio, 3, 0, 0).action,
        Action::StartPlayback { start_frame: 0, loop_frames: 3, recorded_channels: 0 }
    );
}

#[test]
fn an_overdub_starts_the_latency_behind_the_playback() {
    for (play_pos, latency, start) in
        [(50, 20, 30), (10, 20, 90), (10, 320, 90), (50, -70, 20), (0, 0, 0), (20, 20, 0)]
    {
        let plan = advance(State::Looping { loop_frames: 100 }, AUDIO, 0, play_pos, latency);
        assert_eq!(
            plan,
            Plan {
                action: Action::StartOverdub {
                    start_frame: start,
                    loop_frames: 100,
                    device_channels: 6,
                    used_channels: 2,
                },
                next: State::Overdubbing { loop_frames: 100 },
                status: Status::Overdubbing,
            }
        );
        let reached = (start as isize + latency).rem_euclid(100);
        assert_eq!(reached, play_pos as isize % 100);
    }
}

#[test]
fn an_overdub_ends_in_the_same_loop() {
    let looping = State::Looping { loop_frames: 100 };
    let overdubbing = advance(looping, AUDIO, 0, 5, 3).next;
    let plan = advance(overdubbing, AUDIO, 0, 8, 3);
    assert_eq!(
        plan,
        Plan { action: Action::Nothing, next: looping, status: Status::Looping }
    );
}

#[test]
fn capture_is_stopped_where_it_runs() {
    assert!(!stops_capture(State::Idle));
    assert!(stops_capture(State::Recording));
    assert!(!stops_capture(State::Looping { loop_frames: 1 }));
    assert!(stops_capture(State::Overdubbing { loop_frames: 1 }));
}

#[test]
fn a_step_is_settled_by_what_was_started() {
    let plan = advance(State::Idle, AUDIO, 0, 0, 0);
    assert_eq!(settle::<&str>(plan, Ok(())), Ok((State::Recording, Status::Recording)));
    assert_eq!(settle(plan, Err("no device")), Err("no device"));
}

#[test]
fn a_session_starts_idle() {
    assert_eq!(new_session(), Session { state: State::Idle, trim_ms: 85 });
}

#[test]
fn space_asks_for_a_step() {
    let mut session = new_session();
    assert_eq!(handle_event(&mut session, press(Key::Char(' '))), Command::Advance);
    assert_eq!(session, new_session());
}

#[test]
fn r_goes_back_to_idle() {
    for c in ['r', 'R'] {
        for state in [
            State::Idle,
            State::Recording,
            State::Looping { loop_frames: 3 },
            State::Overdubbing { loop_frames: 3 },
        ] {
            let mut session = Session { state, trim_ms: 5 };
            assert_eq!(handle_event(&mut session, press(Key::Char(c))), Command::Reset);
            assert_eq!(session, Session { state: State::Idle, trim_ms: 5 });
        }
    }
}

#[test]
fn arrows_move_the_trim_and_undo_each_other() {
    let mut session = new_session();
    assert_eq!(handle_event(&mut session, press(Key::Left)), Command::ReportTrim);
    assert_eq!(session.trim_ms, 90);
    assert_eq!(handle_event(&mut session, press(Key::Right)), Command::ReportTrim);
    assert_eq!(session.trim_ms, 85);
    assert_eq!(handle_event(&mut session, press(Key::Right)), Command::ReportTrim);
    assert_eq!(session.trim_ms, 80);
    let mut highest = Session { state: State::Idle, trim_ms: i64::MAX - 4 };
    handle_event(&mut highest, press(Key::Left));
    assert_eq!(highest.trim_ms, i64::MAX - 4);
    let mut lowest = Session { state: State::Idle, trim_ms: i64::MIN };
    handle_event(&mut lowest, press(Key::Right));
    assert_eq!(lowest.trim_ms, i64::MIN);
}

/// The frame an overdub starts at, at a thousand frames a second and with no latency
/// measured.
fn start_after(keys: &[Key]) -> usize {
    let mut session = new_session();
    for key in keys {
        handle_event(&mut session, press(*key));
    }
    let latency = FALLBACK_LATENCY_MS as isize + session.trim_ms as isize;
    match advance(State::Looping { loop_frames: 1000 }, AUDIO, 0, 500, latency).action {
        Action::StartOverdub { start_frame, .. } => start_frame,
        other => panic!("no overdub: {:?}", other),
    }
}

#[test]
fn the_left_arrow_places_an_overdub_earlier_and_the_right_one_later() {
    assert_eq!(start_after(&[]), 385);
    assert_eq!(start_after(&[Key::Left]), 380);
    assert_eq!(start_after(&[Key::Right]), 390);
    assert_eq!(start_after(&[Key::Left, Key::Left, Key::Right]), 380);
}

#[test]
fn one_press_of_the_left_arrow_is_reported() {
    let mut session = new_session();
    handle_event(&mut session, press(Key::Left));
    let total = format!("{}", FALLBACK_LATENCY_MS as i64 + session.trim_ms);
    assert_eq!(
        trim_report(session.trim_ms, &total),
        "Overdub timing trim: +90 ms (total 120 ms)"
    );
}

#[test]
fn escape_and_control_c_quit() {
    let control = crossterm::event::KeyModifiers::CONTROL.bits();
    let both = control | crossterm::event::KeyModifiers::SHIFT.bits();
    let other = crossterm::event::KeyModifiers::ALT.bits();
    let c = |modifiers: u8| TerminalEvent::Key {
        key: Key::Char('c'),
        kind: KeyKind::Press,
        modifiers,
    };
    let mut session = new_session();
    assert_eq!(handle_event(&mut session, press(Key::Esc)), Command::Quit);
    assert_eq!(handle_event(&mut session, c(control)), Command::Quit);
    assert_eq!(handle_event(&mut session, c(both)), Command::Quit);
    assert_eq!(handle_event(&mut session, c(other)), Command::Ignore);
    assert_eq!(handle_event(&mut session, c(1)), Command::Ignore);
    assert_eq!(handle_event(&mut session, c(0)), Command::Ignore);
    assert_eq!(session, new_session());
}

#[test]
fn only_presses_of_known_keys_count() {
    let mut session = new_session();
    for kind in [KeyKind::Repeat, KeyKind::Release] {
        for key in [Key::Char(' '), Key::Char('r'), Key::Left, Key::Esc] {
            let event = TerminalEvent::Key { key, kind, modifiers: 2 };
            assert_eq!(handle_event(&mut session, event), Command::Ignore);
        }
    }
    assert_eq!(handle_event(&mut session, press(Key::Other)), Command::Ignore);
    assert_eq!(handle_event(&mut session, press(Key::Char('x'))), Command::Ignore);
    assert_eq!(handle_event(&mut session, TerminalEvent::Other), Command::Ignore);
    assert_eq!(session, new_session());
}

#[test]
fn latencies_are_summed_where_both_are_known() {
    let sum = |a: f64, b: f64| a + b;
    let fallback = FALLBACK_LATENCY_MS as f64;
    assert_eq!(auto_latency(Some(10.5), Some(20.0), fallback, sum), 30.5);
    assert_eq!(auto_latency(Some(10.5), None, fallback, sum), 10.5);
    assert_eq!(auto_latency(None, Some(20.0), fallback, sum), 20.0);
    assert_eq!(auto_latency(None, None, fallback, sum), 30.0);
}

#[test]
fn space_cycles_from_idle_to_overdubbing_and_back_to_looping() {
    let mut state = State::Idle;
    let mut seen = vec![];
    for _ in 0..5 {
        state = advance(state, AUDIO, 12, 4, 1).next;
        seen.push(state);
    }
    let looping = State::Looping { loop_frames: 6 };
    let overdubbing = State::Overdubbing { loop_frames: 6 };
    assert_eq!(seen, vec![State::Recording, looping, overdubbing, looping, overdubbing]);
}

#[test]
fn arrows_nudge_by_the_frames_of_a_step_at_any_rate() {
    let frames_of = |ms: i64| (ms as f64 / 1000.0 * 44100.0).round() as isize;
    let start = |trim_ms: i64| {
        let latency = frames_of(30 + trim_ms);
        match advance(State::Looping { loop_frames: 4000 }, AUDIO, 0, 1000, latency).action {
            Action::StartOverdub { start_frame, .. } => start_frame as isize,
            other => panic!("no overdub: {:?}", other),
        }
    };
    for trim_ms in [85i64, 0, -30, 1000] {
        let mut left = Session { state: State::Idle, trim_ms };
        let mut right = left;
        handle_event(&mut left, press(Key::Left));
        handle_event(&mut right, press(Key::Right));
        let total = 30 + trim_ms;
        let earlier = frames_of(total + 5) - frames_of(total);
        let later = frames_of(total) - frames_of(total - 5);
        assert!((earlier == 220 || earlier == 221) && (later == 220 || later == 221));
        assert_eq!(start(left.trim_ms), (start(trim_ms) - earlier).rem_euclid(4000));
        assert_eq!(start(right.trim_ms), (start(trim_ms) + later).rem_euclid(4000));
    }
}
