use looper::channels::capture_block;
use looper::mixing::{first_write_frame, overdub_block};
use looper::playback::play_block;
use looper::session::{advance, handle_event, new_session, Action, Audio, Key, KeyKind, State, TerminalEvent};

const AUDIO: Audio = Audio { device_channels: 3, used_channels: 2 };

fn loop_len(state: State) -> Option<usize> {
    match state {
        State::Looping { loop_frames } | State::Overdubbing { loop_frames } => Some(loop_frames),
        State::Idle | State::Recording => None,
    }
}

fn assert_sound(state: State, buffer: &[i32], play_pos: usize) {
    if let Some(frames) = loop_len(state) {
        assert!(frames >= 1);
        assert!(play_pos < frames);
        assert!(frames * 2 <= buffer.len() && buffer.len() < (frames + 1) * 2);
    }
}

#[test]
fn every_moment_of_a_run_is_sound() {
    let mut session = new_session();
    let mut buffer: Vec<i32> = vec![];
    let mut play_pos = 7;

    assert!(matches!(advance(session.state, AUDIO, 0, play_pos, 0).action, Action::StartCapture { .. }));
    session.state = advance(session.state, AUDIO, 0, play_pos, 0).next;
    for block in [&[1, 2, 99, 3][..], &[5, 6, 99][..]] {
        capture_block(&mut buffer, block, 3, 2, |s: i32| s);
        assert_sound(session.state, &buffer, play_pos);
    }
    assert_eq!(buffer, vec![1, 2, 3, 5, 6]);

    let plan = advance(session.state, AUDIO, buffer.len(), play_pos, 7);
    assert_eq!(
        plan.action,
        Action::StartPlayback { start_frame: 0, loop_frames: 2, recorded_channels: 2 }
    );
    play_pos = 0;
    session.state = plan.next;
    assert_sound(session.state, &buffer, play_pos);

    for latency in [1, 5, -3] {
        let mut out = [0; 6];
        play_block(&mut out, &buffer, &mut play_pos, 2, 2, 2, 0, |s: i32| s);
        assert_sound(session.state, &buffer, play_pos);
        let plan = advance(session.state, AUDIO, 0, play_pos, latency);
        session.state = plan.next;
        if let Action::StartOverdub { start_frame, loop_frames, .. } = plan.action {
            let mut frame = first_write_frame(start_frame, loop_frames);
            let input = [1; 9];
            overdub_block(&mut buffer, &mut frame, loop_frames, 3, 2, &input, |s: i32| s, |s: i32| s == 0, |a: i32, b: i32| a + b);
        }
        assert_sound(session.state, &buffer, play_pos);
        session.state = advance(session.state, AUDIO, 0, play_pos, latency).next;
        assert_sound(session.state, &buffer, play_pos);
    }

    let reset = TerminalEvent::Key { key: Key::Char('r'), kind: KeyKind::Press, modifiers: 0 };
    handle_event(&mut session, reset);
    assert_eq!(session.state, State::Idle);
}

#[test]
fn no_loop_arises_with_no_used_channels() {
    let audio = Audio { device_channels: 3, used_channels: 0 };
    let mut buffer: Vec<i32> = vec![];
    let recording = advance(State::Idle, audio, 0, 0, 0).next;
    capture_block(&mut buffer, &[1, 2, 3, 4, 5, 6], 3, 0, |s: i32| s);
    assert!(buffer.is_empty());
    let plan = advance(recording, audio, buffer.len(), 0, 0);
    assert_eq!((plan.action, plan.next), (Action::Nothing, State::Idle));
}
