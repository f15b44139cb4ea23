//! The looper's states, the keys that drive it and the timing of an overdub.
use crossterm::event::KeyModifiers;
use vstd::arithmetic::div_mod::{lemma_add_mod_noop_right, lemma_fundamental_div_mod};
use vstd::prelude::*;

use crate::playback::{law_playing_stays_inside, source_slot};

verus! {

/// Round-trip latency in milliseconds that is assumed when none was measured.
pub const FALLBACK_LATENCY_MS: u32 = 30;

/// How far one press of an arrow key moves the overdub timing, in milliseconds.
pub const LATENCY_STEP_MS: i64 = 5;

/// The overdub timing trim at the start, in milliseconds.
pub const DEFAULT_TRIM_MS: i64 = 85;

/// What the looper is doing.
#[derive(Clone, Copy, Debug, PartialEq, Eq, Structural)]
pub enum State {
    Idle,
    Recording,
    Looping { loop_frames: usize },
    Overdubbing { loop_frames: usize },
}

impl State {
    /// A loop has at least one frame, and no more than a buffer can hold.
    pub open spec fn wf(self) -> bool {
        match self {
            State::Idle => true,
            State::Recording => true,
            State::Looping { loop_frames } => 0 < loop_frames <= isize::MAX,
            State::Overdubbing { loop_frames } => 0 < loop_frames <= isize::MAX,
        }
    }

    /// The length of the loop, where there is one.
    pub open spec fn loop_len(self) -> Option<usize> {
        match self {
            State::Idle => None,
            State::Recording => None,
            State::Looping { loop_frames } => Some(loop_frames),
            State::Overdubbing { loop_frames } => Some(loop_frames),
        }
    }
}

/// The channel counts that streams are opened with.
#[derive(Clone, Copy, Debug, PartialEq, Eq, Structural)]
pub struct Audio {
    pub device_channels: u16,
    pub used_channels: u16,
}

/// What to start in order to enter the next state.
#[derive(Clone, Copy, Debug, PartialEq, Eq, Structural)]
pub enum Action {
    /// Capture the input into an empty recording.
    StartCapture { device_channels: u16, used_channels: u16 },
    /// Play the recording as a loop, from `start_frame` on.
    StartPlayback { start_frame: usize, loop_frames: usize, recorded_channels: u16 },
    /// Mix the input into the loop from `start_frame` on.
    StartOverdub {
        start_frame: usize,
        loop_frames: usize,
        device_channels: u16,
        used_channels: u16,
    },
    /// Start nothing.
    Nothing,
}

/// What the user is told.
#[derive(Clone, Copy, Debug, PartialEq, Eq, Structural)]
pub enum Status {
    Recording,
    RecordedNothing,
    Looping,
    Overdubbing,
    Reset,
}

/// One step of the looper: what to start, and, once that runs, the state to be in
/// and what to tell the user.
#[derive(Clone, Copy, Debug, PartialEq, Eq, Structural)]
pub struct Plan {
    pub action: Action,
    pub next: State,
    pub status: Status,
}

/// How many frames there are in a recording of `captured` samples.
pub open spec fn recorded_frames(captured: usize, used_channels: u16) -> int {
    if used_channels == 0 {
        captured as int
    } else {
        captured as int / used_channels as int
    }
}

/// The frame that an overdub first writes: what is captured now was heard
/// `latency_frames` ago, when that frame was playing.
pub open spec fn overdub_start(play_pos: int, latency_frames: int, loop_frames: int) -> int {
    (play_pos - latency_frames) % loop_frames
}

/// The step that SPACE takes: idle, record, loop, overdub, loop, overdub and so on.
pub open spec fn planned(
    state: State,
    audio: Audio,
    captured: usize,
    play_pos: usize,
    latency_frames: isize,
) -> Plan {
    match state {
        State::Idle => Plan {
            action: Action::StartCapture {
                device_channels: audio.device_channels,
                used_channels: audio.used_channels,
            },
            next: State::Recording,
            status: Status::Recording,
        },
        State::Recording => {
            let loop_frames = recorded_frames(captured, audio.used_channels) as usize;
            if loop_frames == 0 {
                Plan {
                    action: Action::Nothing,
                    next: State::Idle,
                    status: Status::RecordedNothing,
                }
            } else {
                Plan {
                    action: Action::StartPlayback {
                        start_frame: 0,
                        loop_frames,
                        recorded_channels: audio.used_channels,
                    },
                    next: State::Looping { loop_frames },
                    status: Status::Looping,
                }
            }
        },
        State::Looping { loop_frames } => Plan {
            action: Action::StartOverdub {
                start_frame: overdub_start(
                    play_pos as int,
                    latency_frames as int,
                    loop_frames as int,
                ) as usize,
                loop_frames,
                device_channels: audio.device_channels,
                used_channels: audio.used_channels,
            },
            next: State::Overdubbing { loop_frames },
            status: Status::Overdubbing,
        },
        State::Overdubbing { loop_frames } => Plan {
            action: Action::Nothing,
            next: State::Looping { loop_frames },
            status: Status::Looping,
        },
    }
}

/// Whether leaving `state` with SPACE stops a running capture. It is stopped before
/// the step is planned, so that a recording is complete when it is measured.
pub fn stops_capture(state: State) -> (stops: bool)
    ensures
        stops == (state is Recording || state is Overdubbing),
{
    match state {
        State::Recording => true,
        State::Overdubbing { .. } => true,
        State::Idle => false,
        State::Looping { .. } => false,
    }
}

/// Plans the step that SPACE takes from `state`. `captured` is the number of samples
/// recorded, `play_pos` the frame being played and `latency_frames` the round-trip
/// delay between hearing a frame and capturing what was played to it.
pub fn advance(
    state: State,
    audio: Audio,
    captured: usize,
    play_pos: usize,
    latency_frames: isize,
) -> (plan: Plan)
    requires
        state matches State::Looping { loop_frames } ==> {
            &&& 0 < loop_frames <= isize::MAX
            &&& play_pos <= isize::MAX
            &&& isize::MIN <= play_pos - latency_frames <= isize::MAX
        },
    ensures
        plan == planned(state, audio, captured, play_pos, latency_frames),
        state.wf() && captured <= isize::MAX ==> plan.next.wf(),
{
    match state {
        State::Idle => Plan {
            action: Action::StartCapture {
                device_channels: audio.device_channels,
                used_channels: audio.used_channels,
            },
            next: State::Recording,
            status: Status::Recording,
        },
        State::Recording => {
            let width: usize = if audio.used_channels == 0 {
                1
            } else {
                audio.used_channels as usize
            };
            let loop_frames: usize = captured / width;
            assert(loop_frames <= captured) by (nonlinear_arith)
                requires
                    width > 0,
                    loop_frames == captured / width,
            ;
            if loop_frames == 0 {
                return Plan {
                    action: Action::Nothing,
                    next: State::Idle,
                    status: Status::RecordedNothing,
                };
            }
            Plan {
                action: Action::StartPlayback {
                    start_frame: 0,
                    loop_frames,
                    recorded_channels: audio.used_channels,
                },
                next: State::Looping { loop_frames },
                status: Status::Looping,
            }
        },
        State::Looping { loop_frames } => {
            let behind: isize = play_pos as isize - latency_frames;
            let start_frame: usize = match behind.checked_rem_euclid(loop_frames as isize) {
                Some(frame) => frame as usize,
                None => 0,
            };
            Plan {
                action: Action::StartOverdub {
                    start_frame,
                    loop_frames,
                    device_channels: audio.device_channels,
                    used_channels: audio.used_channels,
                },
                next: State::Overdubbing { loop_frames },
                status: Status::Overdubbing,
            }
        },
        State::Overdubbing { loop_frames } => Plan {
            action: Action::Nothing,
            next: State::Looping { loop_frames },
            status: Status::Looping,
        },
    }
}

/// Ends a step: once what the plan starts is running, the plan's state is entered
/// and its status told. If it failed to start, there is only the failure.
pub fn settle<E>(plan: Plan, started: Result<(), E>) -> (settled: Result<(State, Status), E>)
    ensures
        settled == match started {
            Ok(_) => Ok((plan.next, plan.status)),
            Err(e) => Err(e),
        },
{
    match started {
        Ok(_) => Ok((plan.next, plan.status)),
        Err(e) => Err(e),
    }
}

/// A key that the looper may know.
#[derive(Clone, Copy, Debug, PartialEq, Eq, Structural)]
pub enum Key {
    Char(char),
    Left,
    Right,
    Esc,
    Other,
}

/// What happened to a key.
#[derive(Clone, Copy, Debug, PartialEq, Eq, Structural)]
pub enum KeyKind {
    Press,
    Repeat,
    Release,
}

/// Something that the terminal reports: a key, with the bits of its modifiers as
/// `crossterm` numbers them, or anything else.
#[derive(Clone, Copy, Debug, PartialEq, Eq, Structural)]
pub enum TerminalEvent {
    Key { key: Key, kind: KeyKind, modifiers: u8 },
    Other,
}

/// What a terminal event asks for.
#[derive(Clone, Copy, Debug, PartialEq, Eq, Structural)]
pub enum Command {
    Ignore,
    /// Take the next step (see `advance`).
    Advance,
    /// Say that the loop was discarded.
    Reset,
    /// Say what the overdub timing is now.
    ReportTrim,
    Quit,
}

/// The looper between two events.
#[derive(Clone, Copy, Debug, PartialEq, Eq, Structural)]
pub struct Session {
    pub state: State,
    /// How much earlier in the loop than the measured latency asks for an overdub is
    /// placed, in milliseconds. It is added to the latency.
    pub trim_ms: i64,
}

/// Whether the modifier bits hold CONTROL.
pub open spec fn with_control(modifiers: u8) -> bool {
    modifiers & 0b10u8 == 0b10u8
}

/// What an event asks for.
pub open spec fn command_of(event: TerminalEvent) -> Command {
    match event {
        TerminalEvent::Key { key, kind: KeyKind::Press, modifiers } => match key {
            Key::Char(c) => if c == ' ' {
                Command::Advance
            } else if c == 'r' || c == 'R' {
                Command::Reset
            } else if c == 'c' && with_control(modifiers) {
                Command::Quit
            } else {
                Command::Ignore
            },
            Key::Left => Command::ReportTrim,
            Key::Right => Command::ReportTrim,
            Key::Esc => Command::Quit,
            Key::Other => Command::Ignore,
        },
        _ => Command::Ignore,
    }
}

/// The trim, moved by `by` milliseconds. One that would not fit stays where it is.
pub open spec fn trim_moved(trim_ms: i64, by: int) -> i64 {
    if i64::MIN <= trim_ms + by <= i64::MAX {
        (trim_ms + by) as i64
    } else {
        trim_ms
    }
}

/// The session after an event: R goes back to idle, the left arrow nudges overdubs
/// earlier in the loop and the right arrow later, and nothing else changes it.
pub open spec fn session_after(session: Session, event: TerminalEvent) -> Session {
    match event {
        TerminalEvent::Key { key, kind: KeyKind::Press, modifiers } => match key {
            Key::Char(c) => if c == 'r' || c == 'R' {
                Session { state: State::Idle, trim_ms: session.trim_ms }
            } else {
                session
            },
            Key::Left => Session {
                state: session.state,
                trim_ms: trim_moved(session.trim_ms, LATENCY_STEP_MS as int),
            },
            Key::Right => Session {
                state: session.state,
                trim_ms: trim_moved(session.trim_ms, -LATENCY_STEP_MS),
            },
            Key::Esc => session,
            Key::Other => session,
        },
        _ => session,
    }
}

/// `KeyModifiers::contains` of crossterm, asked about `KeyModifiers::CONTROL`:
/// whether that modifier's one bit, the second lowest, is set.
/// `KeyModifiers::from_bits_retain` makes modifiers of the given bits as they are.
#[verifier::external_body]
fn contains_control(modifiers: u8) -> (control: bool)
    ensures
        control == with_control(modifiers),
{
    KeyModifiers::from_bits_retain(modifiers).contains(KeyModifiers::CONTROL)
}

/// A looper that has just been started.
pub fn new_session() -> (session: Session)
    ensures
        session.state == State::Idle,
        session.trim_ms == DEFAULT_TRIM_MS,
{
    Session { state: State::Idle, trim_ms: DEFAULT_TRIM_MS }
}

/// Handles one terminal event: changes the session as far as the event does so by
/// itself, and says what else it asks for.
pub fn handle_event(session: &mut Session, event: TerminalEvent) -> (command: Command)
    ensures
        *final(session) == session_after(*old(session), event),
        command == command_of(event),
{
    match event {
        TerminalEvent::Key { key, kind: KeyKind::Press, modifiers } => match key {
            Key::Char(c) => {
                if c == ' ' {
                    Command::Advance
                } else if c == 'r' || c == 'R' {
                    session.state = State::Idle;
                    Command::Reset
                } else if c == 'c' && contains_control(modifiers) {
                    Command::Quit
                } else {
                    Command::Ignore
                }
            },
            Key::Left => {
                match session.trim_ms.checked_add(LATENCY_STEP_MS) {
                    Some(trim_ms) => {
                        session.trim_ms = trim_ms;
                    },
                    None => {},
                }
                Command::ReportTrim
            },
            Key::Right => {
                match session.trim_ms.checked_sub(LATENCY_STEP_MS) {
                    Some(trim_ms) => {
                        session.trim_ms = trim_ms;
                    },
                    None => {},
                }
                Command::ReportTrim
            },
            Key::Esc => Command::Quit,
            Key::Other => Command::Ignore,
        },
        _ => Command::Ignore,
    }
}

/// The latency that was measured: of the input and of the output together, or of
/// the one that could be measured, or else the fallback.
pub fn auto_latency<T, F: Fn(T, T) -> T>(
    input: Option<T>,
    output: Option<T>,
    fallback: T,
    sum: F,
) -> (latency: T)
    requires
        input is Some && output is Some ==> call_requires(sum, (input->0, output->0)),
    ensures
        match (input, output) {
            (Some(i), Some(o)) => call_ensures(sum, (i, o), latency),
            (Some(i), None) => latency == i,
            (None, Some(o)) => latency == o,
            (None, None) => latency == fallback,
        },
{
    match (input, output) {
        (Some(i), Some(o)) => sum(i, o),
        (Some(i), None) => i,
        (None, Some(o)) => o,
        (None, None) => fallback,
    }
}

/// An overdub begins inside the loop, exactly `latency_frames` behind the frame
/// being played: so many frames on, it writes the frame that is played now.
pub proof fn law_overdub_lags_by_latency(play_pos: int, latency_frames: int, loop_frames: int)
    requires
        0 < loop_frames,
    ensures
        0 <= overdub_start(play_pos, latency_frames, loop_frames) < loop_frames,
        (overdub_start(play_pos, latency_frames, loop_frames) + latency_frames) % loop_frames
            == play_pos % loop_frames,
{
    lemma_add_mod_noop_right(latency_frames, play_pos - latency_frames, loop_frames);
}

/// So many frames more of latency place an overdub so many frames earlier.
pub proof fn law_latency_places_earlier(
    play_pos: int,
    latency_frames: int,
    more: int,
    loop_frames: int,
)
    requires
        0 < loop_frames,
    ensures
        overdub_start(play_pos, latency_frames + more, loop_frames) == (overdub_start(
            play_pos,
            latency_frames,
            loop_frames,
        ) - more) % loop_frames,
{
    lemma_add_mod_noop_right(-more, play_pos - latency_frames, loop_frames);
}

/// One press of the left arrow places the next overdub earlier in the loop, and one of
/// the right arrow places it later, by the frames that one step of the trim is worth,
/// where the trim has room. The latency is the measured one and the trim together, and
/// `frames_of` is how many frames so many milliseconds are, at whatever rate and however
/// rounded.
pub proof fn law_arrows_nudge(
    session: Session,
    modifiers: u8,
    play_pos: int,
    measured_ms: int,
    frames_of: spec_fn(int) -> int,
    loop_frames: int,
)
    requires
        0 < loop_frames,
        i64::MIN + LATENCY_STEP_MS <= session.trim_ms <= i64::MAX - LATENCY_STEP_MS,
    ensures
        ({
            let press = |key: Key|
                TerminalEvent::Key { key, kind: KeyKind::Press, modifiers };
            let start = |s: Session|
                overdub_start(play_pos, frames_of(measured_ms + s.trim_ms), loop_frames);
            let total = measured_ms + session.trim_ms;
            let earlier = frames_of(total + LATENCY_STEP_MS) - frames_of(total);
            let later = frames_of(total) - frames_of(total - LATENCY_STEP_MS);
            &&& start(session_after(session, press(Key::Left))) == (start(session) - earlier)
                % loop_frames
            &&& start(session_after(session, press(Key::Right))) == (start(session) + later)
                % loop_frames
        }),
{
    let total = measured_ms + session.trim_ms;
    let now = frames_of(total);
    let left = frames_of(total + LATENCY_STEP_MS);
    let right = frames_of(total - LATENCY_STEP_MS);
    law_latency_places_earlier(play_pos, now, left - now, loop_frames);
    law_latency_places_earlier(play_pos, now, right - now, loop_frames);
    assert(measured_ms + trim_moved(session.trim_ms, LATENCY_STEP_MS as int) == total
        + LATENCY_STEP_MS);
    assert(measured_ms + trim_moved(session.trim_ms, -LATENCY_STEP_MS) == total
        - LATENCY_STEP_MS);
}

/// At a rate of `frames_per_ms` whole frames to a millisecond, a press of an arrow key
/// moves the next overdub by exactly so many times the step.
pub proof fn law_arrows_nudge_whole_frames(
    session: Session,
    modifiers: u8,
    play_pos: int,
    measured_ms: int,
    frames_per_ms: int,
    loop_frames: int,
)
    requires
        0 < loop_frames,
        i64::MIN + LATENCY_STEP_MS <= session.trim_ms <= i64::MAX - LATENCY_STEP_MS,
    ensures
        ({
            let press = |key: Key|
                TerminalEvent::Key { key, kind: KeyKind::Press, modifiers };
            let start = |s: Session|
                overdub_start(play_pos, (measured_ms + s.trim_ms) * frames_per_ms, loop_frames);
            let step = LATENCY_STEP_MS * frames_per_ms;
            &&& start(session_after(session, press(Key::Left))) == (start(session) - step)
                % loop_frames
            &&& start(session_after(session, press(Key::Right))) == (start(session) + step)
                % loop_frames
        }),
{
    let step = LATENCY_STEP_MS * frames_per_ms;
    let total = measured_ms + session.trim_ms;
    let frames_of = |ms: int| ms * frames_per_ms;
    assert((total + LATENCY_STEP_MS) * frames_per_ms == total * frames_per_ms + step)
        by (nonlinear_arith)
        requires
            step == LATENCY_STEP_MS * frames_per_ms,
    ;
    assert((total - LATENCY_STEP_MS) * frames_per_ms == total * frames_per_ms - step)
        by (nonlinear_arith)
        requires
            step == LATENCY_STEP_MS * frames_per_ms,
    ;
    law_arrows_nudge(session, modifiers, play_pos, measured_ms, frames_of, loop_frames);
}

/// Starting and ending an overdub leaves the loop as long as it was, and two presses
/// of SPACE lead from looping back to looping.
pub proof fn law_overdub_keeps_loop(
    state: State,
    audio: Audio,
    captured: (usize, usize),
    play_pos: (usize, usize),
    latency_frames: (isize, isize),
)
    requires
        state.loop_len() is Some,
    ensures
        ({
            let once = planned(state, audio, captured.0, play_pos.0, latency_frames.0).next;
            let twice = planned(once, audio, captured.1, play_pos.1, latency_frames.1).next;
            &&& once.loop_len() == state.loop_len()
            &&& once != state
            &&& twice == state
        }),
{
}

/// What SPACE does, press by press: idle, record, loop, overdub, loop. The second
/// press leads on only if at least one frame was recorded.
pub proof fn law_space_cycle(
    audio: Audio,
    captured: usize,
    play_pos: usize,
    latency_frames: isize,
)
    requires
        recorded_frames(captured, audio.used_channels) > 0,
    ensures
        ({
            let step = |state: State|
                planned(state, audio, captured, play_pos, latency_frames).next;
            let recording = step(State::Idle);
            let looping = step(recording);
            let overdubbing = step(looping);
            &&& recording is Recording
            &&& looping is Looping
            &&& overdubbing is Overdubbing
            &&& step(overdubbing) == looping
            &&& looping.loop_len() == Some(
                recorded_frames(captured, audio.used_channels) as usize,
            )
        }),
{
    let width: int = if audio.used_channels == 0 {
        1
    } else {
        audio.used_channels as int
    };
    assert(captured as int / width <= captured) by (nonlinear_arith)
        requires
            0 < width,
            0 <= captured,
    ;
}

/// A loop that is started has frames, the recording holds all of them and less than
/// one more, and it begins to play at its first one.
pub proof fn law_loop_fits_recording(
    audio: Audio,
    captured: usize,
    play_pos: usize,
    latency_frames: isize,
)
    ensures
        match planned(State::Recording, audio, captured, play_pos, latency_frames).action {
            Action::StartPlayback { start_frame, loop_frames, recorded_channels } => {
                &&& start_frame == 0
                &&& 0 < loop_frames
                &&& recorded_channels == audio.used_channels
                &&& loop_frames * recorded_channels <= captured
                &&& 0 < recorded_channels ==> captured < (loop_frames + 1) * recorded_channels
            },
            action => action is Nothing,
        },
{
    if audio.used_channels > 0 {
        let width = audio.used_channels as int;
        let n = captured as int / width;
        lemma_fundamental_div_mod(captured as int, width);
        assert(width * n == n * width && (n + 1) * width == n * width + width)
            by (nonlinear_arith);
        assert(0 <= n <= captured) by (nonlinear_arith)
            requires
                0 < width,
                n == captured as int / width,
                0 <= captured,
        ;
    }
}

/// A loop that was started plays without ever reading outside its recording,
/// wherever inside itself it is.
pub proof fn law_started_loop_plays(
    audio: Audio,
    captured: usize,
    play_pos: usize,
    latency_frames: isize,
    loop_frames: usize,
    recorded_channels: u16,
    frame: int,
    out_channels: int,
    k: int,
)
    requires
        planned(State::Recording, audio, captured, play_pos, latency_frames).action
            == (Action::StartPlayback { start_frame: 0, loop_frames, recorded_channels }),
        0 < audio.used_channels,
        0 <= frame < loop_frames,
        0 < out_channels,
        0 <= k,
    ensures
        0 <= source_slot(
            frame,
            loop_frames as int,
            recorded_channels as int,
            out_channels,
            k,
        ) < captured,
{
    law_loop_fits_recording(audio, captured, play_pos, latency_frames);
    law_playing_stays_inside(
        frame,
        loop_frames as int,
        recorded_channels as int,
        out_channels,
        k,
    );
}

/// Pressing R, in whatever state, gives up the loop and keeps the timing.
pub proof fn law_reset_goes_idle(session: Session, c: char, modifiers: u8)
    requires
        c == 'r' || c == 'R',
    ensures
        ({
            let event = TerminalEvent::Key { key: Key::Char(c), kind: KeyKind::Press, modifiers };
            &&& session_after(session, event).state == State::Idle
            &&& session_after(session, event).trim_ms == session.trim_ms
            &&& command_of(event) == Command::Reset
        }),
{
}

/// A step to the left and one to the right undo each other, where there is room for
/// the first.
pub proof fn law_trim_steps_undo(session: Session, modifiers: (u8, u8))
    requires
        session.trim_ms <= i64::MAX - LATENCY_STEP_MS,
    ensures
        ({
            let left = TerminalEvent::Key {
                key: Key::Left,
                kind: KeyKind::Press,
                modifiers: modifiers.0,
            };
            let right = TerminalEvent::Key {
                key: Key::Right,
                kind: KeyKind::Press,
                modifiers: modifiers.1,
            };
            session_after(session_after(session, left), right) == session
        }),
{
}

/// Every event leaves a well-formed state well formed.
pub proof fn law_events_keep_wf(session: Session, event: TerminalEvent)
    requires
        session.state.wf(),
    ensures
        session_after(session, event).state.wf(),
{
}

/// From idle, SPACE records the device's used channels, whatever else is the case.
pub proof fn law_idle_records(
    audio: Audio,
    captured: usize,
    play_pos: usize,
    latency_frames: isize,
)
    ensures
        ({
            let plan = planned(State::Idle, audio, captured, play_pos, latency_frames);
            &&& plan.action matches Action::StartCapture { device_channels, used_channels }
                && device_channels == audio.device_channels && used_channels
                == audio.used_channels
            &&& plan.next is Recording
            &&& plan.status is Recording
        }),
{
}

/// A recording of at least one whole frame becomes a loop, and one of less is given up. A
/// frame is one sample of each used channel, and one sample where there are none. The loop
/// is all the whole frames that were captured, from the first on.
pub proof fn law_recording_becomes_loop(
    audio: Audio,
    captured: usize,
    play_pos: usize,
    latency_frames: isize,
)
    ensures
        ({
            let plan = planned(State::Recording, audio, captured, play_pos, latency_frames);
            let width: int = if audio.used_channels > 1 {
                audio.used_channels as int
            } else {
                1
            };
            if captured >= width {
                &&& plan.action matches Action::StartPlayback {
                    start_frame,
                    loop_frames,
                    recorded_channels,
                } && start_frame == 0 && recorded_channels == audio.used_channels && loop_frames
                    >= 1 && loop_frames * width <= captured < (loop_frames + 1) * width
                    && plan.next == (State::Looping { loop_frames })
                &&& plan.status is Looping
            } else {
                &&& plan.action is Nothing
                &&& plan.next is Idle
                &&& plan.status is RecordedNothing
            }
        }),
{
    let width: int = if audio.used_channels > 1 {
        audio.used_channels as int
    } else {
        1
    };
    let n = captured as int / width;
    lemma_fundamental_div_mod(captured as int, width);
    assert(width * n == n * width && (n + 1) * width == n * width + width) by (nonlinear_arith);
    assert(0 <= n <= captured) by (nonlinear_arith)
        requires
            0 < width,
            n == captured as int / width,
            0 <= captured,
    ;
    assert(captured >= width ==> n >= 1) by (nonlinear_arith)
        requires
            captured < n * width + width,
            0 < width,
    ;
    assert(captured < width ==> n == 0) by (nonlinear_arith)
        requires
            n * width <= captured,
            0 < width,
            0 <= n,
    ;
}

/// From a loop, SPACE starts an overdub inside the loop, exactly the latency behind the
/// frame being played, and keeps the loop.
pub proof fn law_loop_is_overdubbed(
    loop_frames: usize,
    audio: Audio,
    captured: usize,
    play_pos: usize,
    latency_frames: isize,
)
    requires
        0 < loop_frames,
    ensures
        ({
            let plan = planned(
                State::Looping { loop_frames },
                audio,
                captured,
                play_pos,
                latency_frames,
            );
            &&& plan.action matches Action::StartOverdub {
                start_frame,
                loop_frames: frames,
                device_channels,
                used_channels,
            } && 0 <= start_frame < loop_frames && (start_frame + latency_frames)
                % (loop_frames as int) == play_pos as int % (loop_frames as int) && frames
                == loop_frames && device_channels == audio.device_channels && used_channels
                == audio.used_channels
            &&& plan.next == (State::Overdubbing { loop_frames })
            &&& plan.status is Overdubbing
        }),
{
    law_overdub_lags_by_latency(play_pos as int, latency_frames as int, loop_frames as int);
}

/// From an overdub, SPACE starts nothing and goes on with the same loop.
pub proof fn law_overdub_ends(
    loop_frames: usize,
    audio: Audio,
    captured: usize,
    play_pos: usize,
    latency_frames: isize,
)
    ensures
        ({
            let plan = planned(
                State::Overdubbing { loop_frames },
                audio,
                captured,
                play_pos,
                latency_frames,
            );
            &&& plan.action is Nothing
            &&& plan.next == (State::Looping { loop_frames })
            &&& plan.status is Looping
        }),
{
}

/// Only a press of R changes the state, and only a press of an arrow key the timing. So a
/// press of SPACE leaves the session as it is, for the step to be taken from there.
pub proof fn law_other_events_change_nothing(session: Session, event: TerminalEvent)
    ensures
        ({
            let is_reset = event matches TerminalEvent::Key { key: Key::Char(c), kind, .. } && kind
                is Press && (c == 'r' || c == 'R');
            let is_arrow = event matches TerminalEvent::Key { key, kind, .. } && kind is Press && (
            key is Left || key is Right);
            let after = session_after(session, event);
            &&& !is_reset ==> after.state == session.state
            &&& is_reset ==> after.state is Idle
            &&& !is_arrow ==> after.trim_ms == session.trim_ms
        }),
{
}

/// A press of the left arrow adds five milliseconds to the trim and one of the right arrow
/// takes five away, unless the trim would no longer fit.
pub proof fn law_arrows_move_trim(session: Session, modifiers: u8)
    ensures
        ({
            let left = session_after(
                session,
                TerminalEvent::Key { key: Key::Left, kind: KeyKind::Press, modifiers },
            );
            let right = session_after(
                session,
                TerminalEvent::Key { key: Key::Right, kind: KeyKind::Press, modifiers },
            );
            &&& session.trim_ms + 5 <= i64::MAX ==> left.trim_ms == session.trim_ms + 5
            &&& session.trim_ms + 5 > i64::MAX ==> left.trim_ms == session.trim_ms
            &&& session.trim_ms - 5 >= i64::MIN ==> right.trim_ms == session.trim_ms - 5
            &&& session.trim_ms - 5 < i64::MIN ==> right.trim_ms == session.trim_ms
        }),
{
}

/// What each event asks for: a press of SPACE a step, of R a reset, of an arrow key a
/// report, of Esc to quit, and of C to quit if CONTROL, the second modifier bit, is held.
/// Everything else is ignored, and so is every key that is held down or let go.
pub proof fn law_commands(event: TerminalEvent)
    ensures
        command_of(event) is Advance <==> (event matches TerminalEvent::Key {
            key: Key::Char(c),
            kind,
            ..
        } && kind is Press && c == ' '),
        command_of(event) is Reset <==> (event matches TerminalEvent::Key {
            key: Key::Char(c),
            kind,
            ..
        } && kind is Press && (c == 'r' || c == 'R')),
        command_of(event) is ReportTrim <==> (event matches TerminalEvent::Key { key, kind, .. }
            && kind is Press && (key is Left || key is Right)),
        command_of(event) is Quit <==> (event matches TerminalEvent::Key { key, kind, modifiers }
            && kind is Press && (key is Esc || (key == Key::Char('c') && (modifiers / 2) % 2
            == 1))),
{
    if let TerminalEvent::Key { key, kind, modifiers } = event {
        assert(modifiers & 0b10u8 == 0b10u8 <==> (modifiers / 2) % 2 == 1) by (bit_vector);
    }
}

/// One press of SPACE, handled and stepped: what is planned from the state there was.
pub proof fn law_space_steps_from_state(
    session: Session,
    modifiers: u8,
    audio: Audio,
    captured: usize,
    play_pos: usize,
    latency_frames: isize,
)
    ensures
        ({
            let space = TerminalEvent::Key {
                key: Key::Char(' '),
                kind: KeyKind::Press,
                modifiers,
            };
            let from = session_after(session, space).state;
            let plan = planned(from, audio, captured, play_pos, latency_frames);
            &&& command_of(space) is Advance
            &&& session_after(session, space) == session
            &&& session.state is Idle ==> plan.next is Recording
            &&& session.state matches State::Looping { loop_frames } ==> plan.next
                == (State::Overdubbing { loop_frames })
            &&& session.state matches State::Overdubbing { loop_frames } ==> plan.next
                == (State::Looping { loop_frames })
            &&& session.state is Recording ==> plan.next is Looping || plan.next is Idle
        }),
{
}

} // verus!
