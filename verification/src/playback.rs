//! Playing a loop round and round.
use vstd::arithmetic::div_mod::{lemma_fundamental_div_mod, lemma_fundamental_div_mod_converse};
use vstd::prelude::*;

use crate::channels::{law_selected_positions, selected, selected_position};
use crate::frames::{
    frame_after, law_frame_position, law_frame_stays_inside, law_frames_add_up, law_full_turn, lemma_div_mod_step,
    lemma_frame_after_step,
};

verus! {

/// What is played on an `i16` device while there is no loop.
pub const SILENCE_I16: i16 = 0;

/// What is played on a `u16` device while there is no loop.
pub const SILENCE_U16: u16 = 32767;

/// The slot of the loop buffer that the `k`-th output sample comes from, when
/// playing begins at frame `start`. An output frame has `out_channels` samples and
/// a recorded one has `rec_channels`, which are repeated to fill the output's.
pub open spec fn source_slot(
    start: int,
    loop_frames: int,
    rec_channels: int,
    out_channels: int,
    k: int,
) -> int {
    frame_after(start, loop_frames, k / out_channels) * rec_channels + (k % out_channels)
        % rec_channels
}

/// How many frames of `width` samples `len` samples take up, counting a last frame
/// that is cut short.
pub open spec fn frames_begun(len: int, width: int) -> int {
    if len % width == 0 {
        len / width
    } else {
        len / width + 1
    }
}

/// Fills one block of output from the loop buffer, each sample through `convert`,
/// and moves `play_pos` past the frames it holds, round the loop. Without a loop
/// the block is silence.
pub fn play_block<T: Copy, U: Copy, F: Fn(T) -> U>(
    data: &mut [U],
    loop_buf: &[T],
    play_pos: &mut usize,
    loop_frames: usize,
    rec_channels: usize,
    out_channels: usize,
    silence: U,
    convert: F,
)
    requires
        loop_frames > 0 ==> out_channels > 0,
        loop_frames > 0 && old(data)@.len() > 0 ==> rec_channels > 0,
        loop_frames > 0 ==> forall|k: int|
            0 <= k < old(data)@.len() ==> #[trigger] source_slot(
                *old(play_pos) as int,
                loop_frames as int,
                rec_channels as int,
                out_channels as int,
                k,
            ) < loop_buf@.len(),
        loop_frames > 0 ==> forall|i: int|
            0 <= i < loop_buf@.len() ==> call_requires(convert, (#[trigger] loop_buf@[i],)),
    ensures
        final(data)@.len() == old(data)@.len(),
        loop_frames == 0 ==> {
            &&& forall|k: int| 0 <= k < final(data)@.len() ==> #[trigger] final(data)@[k] == silence
            &&& *final(play_pos) == *old(play_pos)
        },
        loop_frames > 0 ==> {
            &&& forall|k: int|
                0 <= k < final(data)@.len() ==> call_ensures(
                    convert,
                    (loop_buf@[source_slot(
                        *old(play_pos) as int,
                        loop_frames as int,
                        rec_channels as int,
                        out_channels as int,
                        k,
                    )],),
                    #[trigger] final(data)@[k],
                )
            &&& *final(play_pos) == frame_after(
                *old(play_pos) as int,
                loop_frames as int,
                frames_begun(final(data)@.len() as int, out_channels as int),
            )
        },
{
    let n: usize = data.len();
    let ghost start = *play_pos as int;
    let mut k: usize = 0;
    if loop_frames == 0 {
        while k < n
            invariant
                k <= n,
                n == data@.len(),
                forall|i: int| 0 <= i < k ==> #[trigger] data@[i] == silence,
            decreases n - k,
        {
            data[k] = silence;
            k = k + 1;
        }
        return;
    }
    let mut frame: usize = *play_pos;
    let mut ch: usize = 0;
    proof {
        assert(0int / out_channels as int == 0 && 0int % out_channels as int == 0)
            by (nonlinear_arith)
            requires
                out_channels > 0,
        ;
    }
    while k < n
        invariant
            k <= n,
            n == data@.len(),
            0 < loop_frames,
            0 < out_channels,
            n > 0 ==> 0 < rec_channels,
            frame == frame_after(start, loop_frames as int, k as int / out_channels as int),
            ch == k as int % out_channels as int,
            ch < out_channels,
            forall|i: int|
                0 <= i < n ==> #[trigger] source_slot(
                    start,
                    loop_frames as int,
                    rec_channels as int,
                    out_channels as int,
                    i,
                ) < loop_buf@.len(),
            forall|i: int|
                0 <= i < loop_buf@.len() ==> call_requires(convert, (#[trigger] loop_buf@[i],)),
            forall|i: int|
                0 <= i < k ==> call_ensures(
                    convert,
                    (loop_buf@[source_slot(
                        start,
                        loop_frames as int,
                        rec_channels as int,
                        out_channels as int,
                        i,
                    )],),
                    #[trigger] data@[i],
                ),
            ch > 0 ==> frame < usize::MAX,
        decreases n - k,
    {
        let src_channel: usize = if rec_channels == 1 {
            0
        } else {
            ch % rec_channels
        };
        let ghost slot = source_slot(
            start,
            loop_frames as int,
            rec_channels as int,
            out_channels as int,
            k as int,
        );
        proof {
            lemma_div_mod_step(k as int, out_channels as int);
            lemma_frame_after_step(start, loop_frames as int, k as int / out_channels as int);
            lemma_div_mod_step(ch as int, rec_channels as int);
            assert(src_channel == ch as int % rec_channels as int);
            assert(slot == frame * rec_channels + src_channel);
            assert(slot < loop_buf.len());
            assert(frame <= frame * rec_channels) by (nonlinear_arith)
                requires
                    rec_channels > 0,
            ;
        }
        let value: T = loop_buf[frame * rec_channels + src_channel];
        data[k] = convert(value);
        ch = ch + 1;
        if ch == out_channels {
            ch = 0;
            frame = (frame + 1) % loop_frames;
        }
        k = k + 1;
    }
    if ch > 0 {
        proof {
            lemma_div_mod_step(n as int, out_channels as int);
            lemma_frame_after_step(start, loop_frames as int, n as int / out_channels as int);
        }
        frame = (frame + 1) % loop_frames;
    }
    *play_pos = frame;
}

/// What each output sample is: channel `c` of output frame `f` plays the loop frame that
/// lies `f` frames after the first one played, round the loop, on the recorded channel that
/// `c` is, or repeats if there are fewer.
pub proof fn law_output_sample(
    start: int,
    loop_frames: int,
    rec_channels: int,
    out_channels: int,
    f: int,
    c: int,
)
    requires
        0 < loop_frames,
        0 < rec_channels,
        0 <= c < out_channels,
        0 <= f,
    ensures
        f == 0 ==> source_slot(start, loop_frames, rec_channels, out_channels, c) == start
            * rec_channels + c % rec_channels,
        f > 0 || 0 <= start < loop_frames ==> source_slot(
            start,
            loop_frames,
            rec_channels,
            out_channels,
            f * out_channels + c,
        ) == ((start + f) % loop_frames) * rec_channels + c % rec_channels,
        c < rec_channels ==> c % rec_channels == c,
{
    lemma_fundamental_div_mod_converse(f * out_channels + c, out_channels, f, c);
    law_frame_position(start, loop_frames, f);
    if f == 0 {
        assert(f * out_channels + c == c);
    }
    if c < rec_channels {
        lemma_fundamental_div_mod_converse(c, rec_channels, 0, c);
    }
}

/// How far a block of output moves the position: by its whole frames, and by one more if a
/// last one is cut short.
pub proof fn law_frames_played(out_channels: int, f: int, c: int)
    requires
        0 <= c < out_channels,
        0 <= f,
    ensures
        c == 0 ==> frames_begun(f * out_channels + c, out_channels) == f,
        c > 0 ==> frames_begun(f * out_channels + c, out_channels) == f + 1,
{
    lemma_fundamental_div_mod_converse(f * out_channels + c, out_channels, f, c);
}

/// A loop that begins to play inside itself, from a buffer that holds its frames,
/// never reads outside the buffer.
pub proof fn law_playing_stays_inside(
    start: int,
    loop_frames: int,
    rec_channels: int,
    out_channels: int,
    k: int,
)
    requires
        0 <= start < loop_frames,
        0 < rec_channels,
        0 < out_channels,
        0 <= k,
    ensures
        0 <= source_slot(start, loop_frames, rec_channels, out_channels, k) < loop_frames
            * rec_channels,
{
    let frame = frame_after(start, loop_frames, k / out_channels);
    let ch = (k % out_channels) % rec_channels;
    law_frame_stays_inside(start, loop_frames, k / out_channels);
    lemma_div_mod_step(k, out_channels);
    lemma_div_mod_step(k % out_channels, rec_channels);
    assert(0 <= frame * rec_channels + ch < loop_frames * rec_channels) by (nonlinear_arith)
        requires
            0 <= frame < loop_frames,
            0 <= ch < rec_channels,
    ;
}

/// However the output is cut into blocks, it is the same: after `n` whole frames,
/// sample `k` of the next block is sample `n * out_channels + k` of the output.
pub proof fn law_play_blocks(
    start: int,
    loop_frames: int,
    rec_channels: int,
    out_channels: int,
    n: int,
    k: int,
)
    requires
        0 < loop_frames,
        0 < rec_channels,
        0 < out_channels,
        0 <= n,
        0 <= k,
    ensures
        frames_begun(n * out_channels, out_channels) == n,
        source_slot(
            frame_after(start, loop_frames, n),
            loop_frames,
            rec_channels,
            out_channels,
            k,
        ) == source_slot(start, loop_frames, rec_channels, out_channels, n * out_channels + k),
{
    lemma_fundamental_div_mod_converse(n * out_channels, out_channels, n, 0);
    lemma_div_mod_step(k, out_channels);
    lemma_fundamental_div_mod(k, out_channels);
    let q = k / out_channels;
    let r = k % out_channels;
    assert(n * out_channels + k == (n + q) * out_channels + r) by (nonlinear_arith)
        requires
            k == out_channels * q + r,
    ;
    lemma_fundamental_div_mod_converse(n * out_channels + k, out_channels, n + q, r);
    law_frames_add_up(start, loop_frames, n, q);
}

/// A loop repeats itself: one turn later the output is the same.
pub proof fn law_playing_repeats(
    start: int,
    loop_frames: int,
    rec_channels: int,
    out_channels: int,
    k: int,
)
    requires
        0 <= start < loop_frames,
        0 < rec_channels,
        0 < out_channels,
        0 <= k,
    ensures
        source_slot(start, loop_frames, rec_channels, out_channels, loop_frames * out_channels + k)
            == source_slot(start, loop_frames, rec_channels, out_channels, k),
{
    law_full_turn(start, loop_frames);
    law_play_blocks(start, loop_frames, rec_channels, out_channels, loop_frames, k);
}

/// What was captured is what is played: a recording of `loop_frames` whole device
/// frames plays, at output frame `f` and output channel `c`, the captured sample of
/// the frame that lies `f` frames after the start, on device channel `c` (or, on
/// outputs with more channels than were recorded, on the one that `c` repeats).
pub proof fn law_recording_plays_back<T>(
    captured: Seq<T>,
    device_channels: int,
    used_channels: int,
    start: int,
    loop_frames: int,
    out_channels: int,
    f: int,
    c: int,
)
    requires
        0 < used_channels <= device_channels,
        captured.len() == loop_frames * device_channels,
        0 <= start < loop_frames,
        0 <= f,
        0 <= c < out_channels,
    ensures
        selected(captured, device_channels, used_channels).len() == loop_frames * used_channels,
        selected(captured, device_channels, used_channels)[source_slot(
            start,
            loop_frames,
            used_channels,
            out_channels,
            f * out_channels + c,
        )] == captured[frame_after(start, loop_frames, f) * device_channels + c % used_channels],
{
    let kept = selected(captured, device_channels, used_channels);
    let k = f * out_channels + c;
    let frame = frame_after(start, loop_frames, f);
    let ch = c % used_channels;
    law_selected_positions(captured, device_channels, used_channels);
    lemma_fundamental_div_mod_converse(
        loop_frames * device_channels,
        device_channels,
        loop_frames,
        0,
    );
    assert(kept.len() == loop_frames * used_channels);
    assert(0 <= k) by (nonlinear_arith)
        requires
            0 <= f,
            0 <= c,
            0 < out_channels,
            k == f * out_channels + c,
    ;
    law_playing_stays_inside(start, loop_frames, used_channels, out_channels, k);
    lemma_fundamental_div_mod_converse(k, out_channels, f, c);
    lemma_div_mod_step(c, used_channels);
    let slot = frame * used_channels + ch;
    lemma_fundamental_div_mod_converse(slot, used_channels, frame, ch);
    assert(kept[slot] == captured[selected_position(slot, device_channels, used_channels)]);
}

} // verus!
