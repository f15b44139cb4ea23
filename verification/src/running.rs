//! What holds of the looper as long as it runs: through every press of a key and every
//! block of audio, from the start on.
use vstd::prelude::*;

use crate::channels::{converted, law_selected_none, selected};
use crate::frames::{frame_after, law_frame_stays_inside};
use crate::mixing::{law_loop_is_countable, law_mix_keeps_length, mixes_to, slots_countable};
use crate::playback::{law_playing_stays_inside, source_slot};
use crate::session::{
    law_loop_fits_recording, planned, session_after, Action, Audio, Session, State, TerminalEvent,
};

verus! {

/// The looper at one moment: its state, what was recorded and the frame being played.
pub struct Moment<T> {
    pub state: State,
    pub buffer: Seq<T>,
    pub play_pos: int,
}

/// SPACE took the step that was planned, and what the plan starts did start: a capture
/// with an empty recording, a playback at the plan's frame.
pub open spec fn stepped<T>(audio: Audio, before: Moment<T>, after: Moment<T>) -> bool {
    exists|latency_frames: isize|
        {
            let plan = #[trigger] planned(
                before.state,
                audio,
                before.buffer.len() as usize,
                before.play_pos as usize,
                latency_frames,
            );
            &&& after.state == plan.next
            &&& after.buffer == if plan.action is StartCapture {
                Seq::empty()
            } else {
                before.buffer
            }
            &&& after.play_pos == match plan.action {
                Action::StartPlayback { start_frame, .. } => start_frame as int,
                _ => before.play_pos,
            }
        }
}

/// A terminal event changed the session as it does by itself. Going back to idle gives
/// up the recording.
pub open spec fn handled<T>(before: Moment<T>, after: Moment<T>) -> bool {
    exists|session: Session, event: TerminalEvent|
        {
            &&& session.state == before.state
            &&& after.state == (#[trigger] session_after(session, event)).state
            &&& after.state is Idle || (after.buffer == before.buffer && after.play_pos
                == before.play_pos)
        }
}

/// The used channels of a block of input, each sample through `convert`, were appended to
/// the recording.
pub open spec fn captured<S, T, C: Fn(S) -> T>(
    convert: C,
    audio: Audio,
    before: Moment<T>,
    after: Moment<T>,
) -> bool {
    &&& before.state is Recording
    &&& after.state == before.state
    &&& after.buffer.len() >= before.buffer.len()
    &&& after.buffer.take(before.buffer.len() as int) == before.buffer
    &&& exists|data: Seq<S>|
        {
            &&& data.len() > 0 ==> 0 < audio.device_channels
            &&& converted(
                convert,
                #[trigger] selected(
                    data,
                    audio.device_channels as int,
                    audio.used_channels as int,
                ),
                after.buffer.skip(before.buffer.len() as int),
            )
        }
    &&& after.play_pos == before.play_pos
}

/// The used channels of a block of input, each sample through `convert`, were mixed into
/// the loop.
pub open spec fn overdubbed<S, T, C: Fn(S) -> T, Q: Fn(T) -> bool, F: Fn(T, T) -> T>(
    convert: C,
    silent: Q,
    mix: F,
    audio: Audio,
    before: Moment<T>,
    after: Moment<T>,
) -> bool {
    &&& before.state matches State::Overdubbing { loop_frames }
    &&& after.state == before.state
    &&& exists|write_frame: int, data: Seq<S>, samples: Seq<T>|
        {
            &&& #[trigger] converted(
                convert,
                selected(data, audio.device_channels as int, audio.used_channels as int),
                samples,
            )
            &&& #[trigger] mixes_to(
                silent,
                mix,
                before.buffer,
                write_frame,
                loop_frames as int,
                audio.used_channels as int,
                samples,
                after.buffer,
            )
        }
    &&& after.play_pos == before.play_pos
}

/// A block of output was filled from the loop.
pub open spec fn played<T>(before: Moment<T>, after: Moment<T>) -> bool {
    &&& before.state.loop_len() is Some
    &&& after.state == before.state
    &&& after.buffer == before.buffer
    &&& exists|n: int|
        0 <= n && after.play_pos == #[trigger] frame_after(
            before.play_pos,
            before.state.loop_len()->0 as int,
            n,
        )
}

/// Whether one thing happened between two moments.
pub open spec fn follows<S, T, C: Fn(S) -> T, Q: Fn(T) -> bool, F: Fn(T, T) -> T>(
    convert: C,
    silent: Q,
    mix: F,
    audio: Audio,
    before: Moment<T>,
    after: Moment<T>,
) -> bool {
    ||| stepped(audio, before, after)
    ||| handled(before, after)
    ||| captured(convert, audio, before, after)
    ||| overdubbed(convert, silent, mix, audio, before, after)
    ||| played(before, after)
}

/// A loop has at least one frame and is played inside itself, and its buffer holds its
/// frames and less than one more. With no used channels nothing is recorded, so no loop
/// arises.
pub open spec fn is_sound<T>(audio: Audio, moment: Moment<T>) -> bool {
    match moment.state.loop_len() {
        Some(loop_frames) => {
            &&& moment.state.wf()
            &&& 0 <= moment.play_pos < loop_frames
            &&& 0 < audio.used_channels
            &&& loop_frames * audio.used_channels <= moment.buffer.len() < (loop_frames + 1)
                * audio.used_channels
        },
        None => moment.state is Recording && audio.used_channels == 0 ==> moment.buffer.len() == 0,
    }
}

/// Whatever happens, a sound looper stays sound. `before.buffer` is no longer than a
/// vector can be.
pub proof fn law_stays_sound<S, T, C: Fn(S) -> T, Q: Fn(T) -> bool, F: Fn(T, T) -> T>(
    convert: C,
    silent: Q,
    mix: F,
    audio: Audio,
    before: Moment<T>,
    after: Moment<T>,
)
    requires
        is_sound(audio, before),
        before.buffer.len() <= isize::MAX,
        follows(convert, silent, mix, audio, before, after),
    ensures
        is_sound(audio, after),
{
    if stepped(audio, before, after) {
        let latency_frames = choose|latency_frames: isize|
            {
                let plan = #[trigger] planned(
                    before.state,
                    audio,
                    before.buffer.len() as usize,
                    before.play_pos as usize,
                    latency_frames,
                );
                &&& after.state == plan.next
                &&& after.buffer == if plan.action is StartCapture {
                    Seq::empty()
                } else {
                    before.buffer
                }
                &&& after.play_pos == match plan.action {
                    Action::StartPlayback { start_frame, .. } => start_frame as int,
                    _ => before.play_pos,
                }
            };
        if before.state is Recording {
            let held = before.buffer.len() as usize;
            law_loop_fits_recording(audio, held, before.play_pos as usize, latency_frames);
            if let State::Looping { loop_frames } = after.state {
                let width = audio.used_channels as int;
                assert(loop_frames <= loop_frames * width) by (nonlinear_arith)
                    requires
                        0 <= loop_frames,
                        0 < width,
                ;
            }
        }
    } else if handled(before, after) {
    } else if captured(convert, audio, before, after) {
        if audio.used_channels == 0 {
            let data = choose|data: Seq<S>|
                {
                    &&& data.len() > 0 ==> 0 < audio.device_channels
                    &&& converted(
                        convert,
                        #[trigger] selected(
                            data,
                            audio.device_channels as int,
                            audio.used_channels as int,
                        ),
                        after.buffer.skip(before.buffer.len() as int),
                    )
                };
            law_selected_none(data, audio.device_channels as int);
            assert(after.buffer.skip(before.buffer.len() as int).len() == 0);
        }
    } else if overdubbed(convert, silent, mix, audio, before, after) {
        if let State::Overdubbing { loop_frames } = before.state {
            let (write_frame, data, samples) = choose|
                write_frame: int,
                data: Seq<S>,
                samples: Seq<T>,
            |
                {
                    &&& #[trigger] converted(
                        convert,
                        selected(data, audio.device_channels as int, audio.used_channels as int),
                        samples,
                    )
                    &&& #[trigger] mixes_to(
                        silent,
                        mix,
                        before.buffer,
                        write_frame,
                        loop_frames as int,
                        audio.used_channels as int,
                        samples,
                        after.buffer,
                    )
                };
            law_mix_keeps_length(
                silent,
                mix,
                before.buffer,
                write_frame,
                loop_frames as int,
                audio.used_channels as int,
                samples,
                after.buffer,
            );
        }
    } else if played(before, after) {
        let loop_frames = before.state.loop_len()->0 as int;
        let n = choose|n: int|
            0 <= n && after.play_pos == #[trigger] frame_after(before.play_pos, loop_frames, n);
        law_frame_stays_inside(before.play_pos, loop_frames, n);
    }
}

/// From idle on, every moment of a run is sound: each loop has a frame, its buffer holds
/// exactly its frames and less than one more, and it is played inside itself.
pub proof fn law_runs_are_sound<S, T, C: Fn(S) -> T, Q: Fn(T) -> bool, F: Fn(T, T) -> T>(
    convert: C,
    silent: Q,
    mix: F,
    audio: Audio,
    run: Seq<Moment<T>>,
)
    requires
        run.len() > 0,
        run[0].state is Idle,
        forall|i: int|
            #![trigger run[i]]
            0 <= i < run.len() - 1 ==> {
                &&& run[i].buffer.len() <= isize::MAX
                &&& follows(convert, silent, mix, audio, run[i], run[i + 1])
            },
    ensures
        forall|i: int| 0 <= i < run.len() ==> is_sound(audio, #[trigger] run[i]),
    decreases run.len(),
{
    if run.len() > 1 {
        let shorter = run.drop_last();
        let n = run.len() - 2;
        assert forall|i: int|
            #![trigger shorter[i]]
            0 <= i < shorter.len() - 1 implies {
            &&& shorter[i].buffer.len() <= isize::MAX
            &&& follows(convert, silent, mix, audio, shorter[i], shorter[i + 1])
        } by {
            assert(shorter[i] == run[i]);
        }
        law_runs_are_sound(convert, silent, mix, audio, shorter);
        assert(shorter[n] == run[n]);
        law_stays_sound(convert, silent, mix, audio, run[n], run[n + 1]);
        assert forall|i: int| 0 <= i < run.len() implies is_sound(audio, #[trigger] run[i]) by {
            if i < shorter.len() {
                assert(shorter[i] == run[i]);
            }
        }
    }
}

/// Nothing that a sound looper does leaves the loop: every slot that an output sample
/// comes from is in the buffer, and every slot that an overdub writes can be counted.
pub proof fn law_sound_loop_runs<T>(
    audio: Audio,
    moment: Moment<T>,
    out_channels: int,
    k: int,
    write_frame: int,
    len: int,
)
    requires
        is_sound(audio, moment),
        moment.state.loop_len() is Some,
        moment.buffer.len() <= isize::MAX,
        0 < out_channels,
        0 <= k,
        0 <= write_frame < moment.state.loop_len()->0,
        len <= usize::MAX,
    ensures
        0 <= source_slot(
            moment.play_pos,
            moment.state.loop_len()->0 as int,
            audio.used_channels as int,
            out_channels,
            k,
        ) < moment.buffer.len(),
        slots_countable(
            write_frame,
            moment.state.loop_len()->0 as int,
            audio.used_channels as int,
            len,
        ),
{
    let loop_frames = moment.state.loop_len()->0 as int;
    law_playing_stays_inside(
        moment.play_pos,
        loop_frames,
        audio.used_channels as int,
        out_channels,
        k,
    );
    law_loop_is_countable(write_frame, loop_frames, audio.used_channels as int, len);
}

} // verus!
