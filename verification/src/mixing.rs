//! Overdubbing: mixing captured audio into a loop.
use vstd::arithmetic::div_mod::{
    lemma_add_mod_noop_right, lemma_fundamental_div_mod, lemma_fundamental_div_mod_converse,
    lemma_mod_adds, lemma_small_mod, lemma_sub_mod_noop,
};
use vstd::prelude::*;

use crate::channels::convert_block;
use crate::channels::{converted, law_block_is_converted, law_kept_count, selected};
use crate::frames::{
    frame_after, law_frame_position, law_frame_stays_inside, law_frames_add_up, law_full_turn, lemma_div_mod_step,
    lemma_frame_after_step,
};

verus! {

/// The slot of the loop buffer that the `k`-th sample goes to, when writing begins
/// at frame `start` of a loop of `loop_frames` frames of `channels` samples. With
/// no channels the slots are counted up from the first.
pub open spec fn write_slot(start: int, loop_frames: int, channels: int, k: int) -> int {
    if channels == 0 {
        k
    } else {
        frame_after(start, loop_frames, k / channels) * channels + k % channels
    }
}

/// How many whole frames of `channels` samples there are in `len` samples.
pub open spec fn whole_frames(len: int, channels: int) -> int {
    if channels == 0 {
        0
    } else {
        len / channels
    }
}

/// Whether `result` is what a loop sample becomes with `sample` mixed in: silence
/// leaves it as it is, and anything else goes through `mix`.
pub open spec fn becomes<T, Q: Fn(T) -> bool, F: Fn(T, T) -> T>(
    silent: Q,
    mix: F,
    existing: T,
    sample: T,
    result: T,
) -> bool {
    ||| call_ensures(silent, (sample,), true) && result == existing
    ||| call_ensures(silent, (sample,), false) && call_ensures(mix, (existing, sample), result)
}

/// Whether `after` is `before` with `sample` mixed into `slot`, which does nothing
/// if the buffer has no such slot.
pub open spec fn mixes_one<T, Q: Fn(T) -> bool, F: Fn(T, T) -> T>(
    silent: Q,
    mix: F,
    before: Seq<T>,
    slot: int,
    sample: T,
    after: Seq<T>,
) -> bool {
    if 0 <= slot < before.len() {
        &&& after == before.update(slot, after[slot])
        &&& becomes(silent, mix, before[slot], sample, after[slot])
    } else {
        after == before
    }
}

/// Whether `after` is `before` with the samples of `data` mixed in one after the
/// other, each into its slot.
pub open spec fn mixes_to<T, Q: Fn(T) -> bool, F: Fn(T, T) -> T>(
    silent: Q,
    mix: F,
    before: Seq<T>,
    start: int,
    loop_frames: int,
    channels: int,
    data: Seq<T>,
    after: Seq<T>,
) -> bool
    decreases data.len(),
{
    if data.len() == 0 {
        after == before
    } else {
        exists|mid: Seq<T>|
            {
                &&& mixes_to(
                    silent,
                    mix,
                    before,
                    start,
                    loop_frames,
                    channels,
                    data.drop_last(),
                    mid,
                )
                &&& #[trigger] mixes_one(
                    silent,
                    mix,
                    mid,
                    write_slot(start, loop_frames, channels, data.len() - 1),
                    data.last(),
                    after,
                )
            }
    }
}

/// Whether `len` samples can be mixed in from frame `start` on with every slot and
/// every frame counted in a `usize`.
pub open spec fn slots_countable(start: int, loop_frames: int, channels: int, len: int) -> bool {
    &&& forall|k: int|
        0 <= k < len ==> #[trigger] write_slot(start, loop_frames, channels, k) <= usize::MAX
    &&& 0 < channels <= len ==> start < usize::MAX
}

/// Where an overdub that starts at `start_frame` first writes.
pub fn first_write_frame(start_frame: usize, loop_frames: usize) -> (frame: usize)
    ensures
        loop_frames == 0 ==> frame == 0,
        loop_frames > 0 ==> frame == start_frame % loop_frames,
{
    if loop_frames == 0 {
        0
    } else {
        start_frame % loop_frames
    }
}

/// Mixes freshly captured audio into the loop buffer from frame `write_frame` on,
/// and moves `write_frame` past the whole frames among it, round the loop. Silence
/// never alters the loop.
///
/// The frame to write is the overdub's own: it is seeded once, from the playback
/// position, and only this function moves it. So a pass writes each loop frame
/// exactly once even if capture and playback do not keep step.
pub fn mix_into_loop<T: Copy, Q: Fn(T) -> bool, F: Fn(T, T) -> T>(
    loop_buf: &mut Vec<T>,
    write_frame: &mut usize,
    loop_frames: usize,
    channels: usize,
    data: &[T],
    silent: Q,
    mix: F,
)
    requires
        loop_frames > 0 ==> slots_countable(
            *old(write_frame) as int,
            loop_frames as int,
            channels as int,
            data@.len() as int,
        ),
        forall|a: T| call_requires(silent, (a,)),
        forall|a: T, b: T| call_requires(mix, (a, b)),
    ensures
        loop_frames == 0 ==> final(loop_buf)@ == old(loop_buf)@ && *final(write_frame) == *old(
            write_frame,
        ),
        loop_frames > 0 ==> {
            &&& mixes_to(
                silent,
                mix,
                old(loop_buf)@,
                *old(write_frame) as int,
                loop_frames as int,
                channels as int,
                data@,
                final(loop_buf)@,
            )
            &&& *final(write_frame) == frame_after(
                *old(write_frame) as int,
                loop_frames as int,
                whole_frames(data@.len() as int, channels as int),
            )
        },
{
    if loop_frames == 0 {
        return;
    }
    let ghost start = *write_frame as int;
    let ghost before = loop_buf@;
    let mut ch: usize = 0;
    let mut i: usize = 0;
    assert(data@.take(0) == Seq::<T>::empty());
    proof {
        if channels > 0 {
            lemma_div_mod_step(0, channels as int);
            assert(0int / channels as int == 0 && 0int % channels as int == 0) by (nonlinear_arith)
                requires
                    channels > 0,
            ;
        }
    }
    while i < data.len()
        invariant
            i <= data.len(),
            0 < loop_frames,
            slots_countable(start, loop_frames as int, channels as int, data@.len() as int),
            forall|a: T| call_requires(silent, (a,)),
            forall|a: T, b: T| call_requires(mix, (a, b)),
            channels == 0 ==> ch == i,
            channels > 0 ==> ch == i as int % channels as int,
            *write_frame == frame_after(
                start,
                loop_frames as int,
                whole_frames(i as int, channels as int),
            ),
            mixes_to(
                silent,
                mix,
                before,
                start,
                loop_frames as int,
                channels as int,
                data@.take(i as int),
                loop_buf@,
            ),
        decreases data.len() - i,
    {
        let ghost mid = loop_buf@;
        let ghost upto = data@.take(i + 1);
        assert(upto.drop_last() == data@.take(i as int));
        assert(upto.last() == data@[i as int]);
        proof {
            if channels > 0 {
                lemma_div_mod_step(i as int, channels as int);
                lemma_frame_after_step(start, loop_frames as int, i as int / channels as int);
            }
            assert(0 <= *write_frame * channels) by (nonlinear_arith);
            if channels == 0 {
                assert(*write_frame * channels == 0) by (nonlinear_arith)
                    requires
                        channels == 0,
                ;
            }
            let slot = write_slot(start, loop_frames as int, channels as int, i as int);
            assert(slot == *write_frame * channels + ch);
            assert(slot <= usize::MAX);
        }
        let idx: usize = *write_frame * channels + ch;
        assert(idx == write_slot(start, loop_frames as int, channels as int, i as int));
        if idx < loop_buf.len() {
            let sample: T = data[i];
            if !silent(sample) {
                let mixed: T = mix(loop_buf[idx], sample);
                loop_buf.set(idx, mixed);
            }
        }
        assert(mixes_to(
            silent,
            mix,
            before,
            start,
            loop_frames as int,
            channels as int,
            upto.drop_last(),
            mid,
        ));
        assert(idx < mid.len() ==> loop_buf@ == mid.update(idx as int, loop_buf@[idx as int]));
        assert(mixes_one(silent, mix, mid, idx as int, upto.last(), loop_buf@));
        ch = ch + 1;
        if ch == channels {
            ch = 0;
            proof {
                if i as int / channels as int == 0 {
                    lemma_fundamental_div_mod(i as int, channels as int);
                    assert(*write_frame == start);
                }
            }
            *write_frame = (*write_frame + 1) % loop_frames;
        }
        i = i + 1;
    }
    assert(data@.take(i as int) == data@);
}

/// Mixes one block of captured input into the loop buffer: the used channels of
/// `data`, each sample through `convert`.
pub fn overdub_block<S: Copy, T: Copy, C: Fn(S) -> T, Q: Fn(T) -> bool, F: Fn(T, T) -> T>(
    loop_buf: &mut Vec<T>,
    write_frame: &mut usize,
    loop_frames: usize,
    device_channels: usize,
    used_channels: usize,
    data: &[S],
    convert: C,
    silent: Q,
    mix: F,
)
    requires
        loop_frames > 0 && data@.len() > 0 ==> device_channels > 0,
        loop_frames > 0 ==> slots_countable(
            *old(write_frame) as int,
            loop_frames as int,
            used_channels as int,
            selected(data@, device_channels as int, used_channels as int).len() as int,
        ),
        forall|i: int| 0 <= i < data@.len() ==> call_requires(convert, (#[trigger] data@[i],)),
        forall|a: T| call_requires(silent, (a,)),
        forall|a: T, b: T| call_requires(mix, (a, b)),
    ensures
        loop_frames == 0 ==> final(loop_buf)@ == old(loop_buf)@ && *final(write_frame) == *old(
            write_frame,
        ),
        loop_frames > 0 ==> {
            let kept = selected(data@, device_channels as int, used_channels as int);
            &&& exists|samples: Seq<T>|
                {
                    &&& #[trigger] converted(convert, kept, samples)
                    &&& mixes_to(
                        silent,
                        mix,
                        old(loop_buf)@,
                        *old(write_frame) as int,
                        loop_frames as int,
                        used_channels as int,
                        samples,
                        final(loop_buf)@,
                    )
                }
            &&& *final(write_frame) == frame_after(
                *old(write_frame) as int,
                loop_frames as int,
                whole_frames(kept.len() as int, used_channels as int),
            )
        },
{
    if loop_frames == 0 {
        return;
    }
    let samples = convert_block(data, device_channels, used_channels, convert);
    mix_into_loop(loop_buf, write_frame, loop_frames, used_channels, samples.as_slice(), silent, mix);
}

/// A loop that a `usize` can count, written from inside itself, is countable however
/// much is mixed in.
pub proof fn law_loop_is_countable(start: int, loop_frames: int, channels: int, len: int)
    requires
        0 <= start < loop_frames,
        0 <= channels,
        loop_frames <= usize::MAX,
        loop_frames * channels <= usize::MAX,
        len <= usize::MAX,
    ensures
        slots_countable(start, loop_frames, channels, len),
{
    assert forall|k: int| 0 <= k < len implies #[trigger] write_slot(
        start,
        loop_frames,
        channels,
        k,
    ) <= usize::MAX by {
        if channels > 0 {
            let frame = frame_after(start, loop_frames, k / channels);
            let ch = k % channels;
            law_frame_stays_inside(start, loop_frames, k / channels);
            lemma_div_mod_step(k, channels);
            assert(frame * channels + ch < loop_frames * channels) by (nonlinear_arith)
                requires
                    0 <= frame < loop_frames,
                    0 <= ch < channels,
            ;
        }
    }
}

/// Whether `silent` and `mix` compute the function `g`.
pub open spec fn computes<T, Q: Fn(T) -> bool, F: Fn(T, T) -> T>(
    silent: Q,
    mix: F,
    g: spec_fn(T, T) -> T,
) -> bool {
    forall|a: T, b: T, r: T| #[trigger] becomes(silent, mix, a, b, r) ==> r == g(a, b)
}

/// `before` with the samples of `data` mixed in by `g`, each into its slot.
pub open spec fn mixed<T>(
    g: spec_fn(T, T) -> T,
    before: Seq<T>,
    start: int,
    loop_frames: int,
    channels: int,
    data: Seq<T>,
) -> Seq<T>
    decreases data.len(),
{
    if data.len() == 0 {
        before
    } else {
        let mid = mixed(g, before, start, loop_frames, channels, data.drop_last());
        let slot = write_slot(start, loop_frames, channels, data.len() - 1);
        if 0 <= slot < mid.len() {
            mid.update(slot, g(mid[slot], data.last()))
        } else {
            mid
        }
    }
}

/// Where `silent` and `mix` compute a function, what they leave in the loop is a function of
/// the loop, the place and the samples.
pub proof fn law_mix_is_determined<T, Q: Fn(T) -> bool, F: Fn(T, T) -> T>(
    silent: Q,
    mix: F,
    g: spec_fn(T, T) -> T,
    before: Seq<T>,
    start: int,
    loop_frames: int,
    channels: int,
    data: Seq<T>,
    after: Seq<T>,
)
    requires
        computes(silent, mix, g),
        mixes_to(silent, mix, before, start, loop_frames, channels, data, after),
    ensures
        after == mixed(g, before, start, loop_frames, channels, data),
    decreases data.len(),
{
    if data.len() > 0 {
        let slot = write_slot(start, loop_frames, channels, data.len() - 1);
        let mid = choose|mid: Seq<T>|
            {
                &&& mixes_to(silent, mix, before, start, loop_frames, channels, data.drop_last(), mid)
                &&& #[trigger] mixes_one(silent, mix, mid, slot, data.last(), after)
            };
        law_mix_is_determined(
            silent,
            mix,
            g,
            before,
            start,
            loop_frames,
            channels,
            data.drop_last(),
            mid,
        );
    }
}

/// Mixing leaves the loop as long as it was.
pub proof fn law_mix_keeps_length<T, Q: Fn(T) -> bool, F: Fn(T, T) -> T>(
    silent: Q,
    mix: F,
    before: Seq<T>,
    start: int,
    loop_frames: int,
    channels: int,
    data: Seq<T>,
    after: Seq<T>,
)
    requires
        mixes_to(silent, mix, before, start, loop_frames, channels, data, after),
    ensures
        after.len() == before.len(),
    decreases data.len(),
{
    if data.len() > 0 {
        let slot = write_slot(start, loop_frames, channels, data.len() - 1);
        let mid = choose|mid: Seq<T>|
            {
                &&& mixes_to(silent, mix, before, start, loop_frames, channels, data.drop_last(), mid)
                &&& #[trigger] mixes_one(silent, mix, mid, slot, data.last(), after)
            };
        law_mix_keeps_length(silent, mix, before, start, loop_frames, channels, data.drop_last(), mid);
    }
}

/// Mixing in silence never alters the loop, whatever it holds and whatever `mix` does.
pub proof fn law_silence_keeps_loop<T, Q: Fn(T) -> bool, F: Fn(T, T) -> T>(
    silent: Q,
    mix: F,
    before: Seq<T>,
    start: int,
    loop_frames: int,
    channels: int,
    data: Seq<T>,
    after: Seq<T>,
)
    requires
        mixes_to(silent, mix, before, start, loop_frames, channels, data, after),
        forall|k: int, b: bool|
            0 <= k < data.len() && #[trigger] call_ensures(silent, (data[k],), b) ==> b,
    ensures
        after == before,
    decreases data.len(),
{
    if data.len() > 0 {
        let shorter = data.drop_last();
        let slot = write_slot(start, loop_frames, channels, data.len() - 1);
        let mid = choose|mid: Seq<T>|
            {
                &&& mixes_to(silent, mix, before, start, loop_frames, channels, shorter, mid)
                &&& #[trigger] mixes_one(silent, mix, mid, slot, data.last(), after)
            };
        assert forall|k: int, b: bool|
            0 <= k < shorter.len() && #[trigger] call_ensures(
                silent,
                (shorter[k],),
                b,
            ) implies b by {
            assert(shorter[k] == data[k]);
        }
        law_silence_keeps_loop(silent, mix, before, start, loop_frames, channels, shorter, mid);
        assert(data.last() == data[data.len() - 1]);
        assert(after == before);
    }
}

/// Whether every sample is one that `ok` admits.
pub open spec fn all_ok<T>(ok: spec_fn(T) -> bool, samples: Seq<T>) -> bool {
    forall|i: int| 0 <= i < samples.len() ==> ok(#[trigger] samples[i])
}

/// Whether `mix` makes of two samples that `ok` admits one that it admits.
pub open spec fn keeps_ok<T, F: Fn(T, T) -> T>(mix: F, ok: spec_fn(T) -> bool) -> bool {
    forall|a: T, b: T, r: T|
        ok(a) && ok(b) && #[trigger] call_ensures(mix, (a, b), r) ==> ok(r)
}

/// Mixing keeps the loop in any range, such as full scale, that the mixing of two samples
/// keeps.
pub proof fn law_mix_stays_in_range<T, Q: Fn(T) -> bool, F: Fn(T, T) -> T>(
    silent: Q,
    mix: F,
    ok: spec_fn(T) -> bool,
    before: Seq<T>,
    start: int,
    loop_frames: int,
    channels: int,
    data: Seq<T>,
    after: Seq<T>,
)
    requires
        keeps_ok(mix, ok),
        all_ok(ok, before),
        all_ok(ok, data),
        mixes_to(silent, mix, before, start, loop_frames, channels, data, after),
    ensures
        all_ok(ok, after),
    decreases data.len(),
{
    if data.len() > 0 {
        let shorter = data.drop_last();
        let slot = write_slot(start, loop_frames, channels, data.len() - 1);
        let mid = choose|mid: Seq<T>|
            {
                &&& mixes_to(silent, mix, before, start, loop_frames, channels, shorter, mid)
                &&& #[trigger] mixes_one(silent, mix, mid, slot, data.last(), after)
            };
        assert forall|i: int| 0 <= i < shorter.len() implies ok(#[trigger] shorter[i]) by {
            assert(shorter[i] == data[i]);
        }
        law_mix_stays_in_range(
            silent,
            mix,
            ok,
            before,
            start,
            loop_frames,
            channels,
            shorter,
            mid,
        );
        assert(ok(data[data.len() - 1]));
        assert forall|i: int| 0 <= i < after.len() implies ok(#[trigger] after[i]) by {
            assert(ok(mid[i]));
        }
    }
}

/// Any number of blocks, in any number of overdubs wherever each begins, keep the loop in
/// such a range: `bufs[i]` is the loop before block `i`, which is mixed in from frame
/// `starts[i]` on.
pub proof fn law_overdubs_stay_in_range<T, Q: Fn(T) -> bool, F: Fn(T, T) -> T>(
    silent: Q,
    mix: F,
    ok: spec_fn(T) -> bool,
    loop_frames: int,
    channels: int,
    starts: Seq<int>,
    blocks: Seq<Seq<T>>,
    bufs: Seq<Seq<T>>,
)
    requires
        keeps_ok(mix, ok),
        starts.len() == blocks.len(),
        bufs.len() == blocks.len() + 1,
        all_ok(ok, bufs[0]),
        forall|i: int|
            0 <= i < blocks.len() ==> all_ok(ok, #[trigger] blocks[i]) && mixes_to(
                silent,
                mix,
                bufs[i],
                starts[i],
                loop_frames,
                channels,
                blocks[i],
                bufs[i + 1],
            ),
    ensures
        forall|i: int| 0 <= i < bufs.len() ==> all_ok(ok, #[trigger] bufs[i]),
    decreases blocks.len(),
{
    if blocks.len() > 0 {
        let n = blocks.len() - 1;
        let shorter = blocks.drop_last();
        assert forall|i: int| 0 <= i < shorter.len() implies all_ok(ok, #[trigger] shorter[i])
            && mixes_to(
            silent,
            mix,
            bufs.drop_last()[i],
            starts.drop_last()[i],
            loop_frames,
            channels,
            shorter[i],
            bufs.drop_last()[i + 1],
        ) by {
            assert(shorter[i] == blocks[i]);
        }
        law_overdubs_stay_in_range(
            silent,
            mix,
            ok,
            loop_frames,
            channels,
            starts.drop_last(),
            shorter,
            bufs.drop_last(),
        );
        assert(all_ok(ok, bufs.drop_last()[n]));
        assert(all_ok(ok, blocks[n]));
        law_mix_stays_in_range(
            silent,
            mix,
            ok,
            bufs[n],
            starts[n],
            loop_frames,
            channels,
            blocks[n],
            bufs[n + 1],
        );
        assert forall|i: int| 0 <= i < bufs.len() implies all_ok(ok, #[trigger] bufs[i]) by {
            if i <= n {
                assert(bufs.drop_last()[i] == bufs[i]);
            }
        }
    }
}

/// A sample after `a` goes to the slot it would have with `a` mixed in before.
proof fn lemma_slot_after(start: int, loop_frames: int, channels: int, n: int, j: int)
    requires
        0 < loop_frames,
        0 < channels,
        0 <= n,
        0 <= j,
    ensures
        write_slot(start, loop_frames, channels, n * channels + j) == write_slot(
            frame_after(start, loop_frames, n),
            loop_frames,
            channels,
            j,
        ),
{
    lemma_div_mod_step(j, channels);
    lemma_fundamental_div_mod(j, channels);
    assert(n * channels + j == (n + j / channels) * channels + j % channels) by (nonlinear_arith)
        requires
            j == channels * (j / channels) + j % channels,
    ;
    lemma_fundamental_div_mod_converse(
        n * channels + j,
        channels,
        n + j / channels,
        j % channels,
    );
    law_frames_add_up(start, loop_frames, n, j / channels);
}

/// Mixing in one block and then another is mixing in both at once, as long as the
/// first holds whole frames.
pub proof fn law_mix_two_blocks<T, Q: Fn(T) -> bool, F: Fn(T, T) -> T>(
    silent: Q,
    mix: F,
    before: Seq<T>,
    start: int,
    loop_frames: int,
    channels: int,
    a: Seq<T>,
    mid: Seq<T>,
    b: Seq<T>,
    after: Seq<T>,
)
    requires
        0 < loop_frames,
        0 < channels,
        a.len() as int % channels == 0,
        mixes_to(silent, mix, before, start, loop_frames, channels, a, mid),
        mixes_to(
            silent,
            mix,
            mid,
            frame_after(start, loop_frames, whole_frames(a.len() as int, channels)),
            loop_frames,
            channels,
            b,
            after,
        ),
    ensures
        mixes_to(silent, mix, before, start, loop_frames, channels, a + b, after),
    decreases b.len(),
{
    if b.len() == 0 {
        assert(a + b == a);
    } else {
        let n = a.len() as int / channels;
        let next = frame_after(start, loop_frames, n);
        let slot = write_slot(next, loop_frames, channels, b.len() - 1);
        let then = choose|then: Seq<T>|
            {
                &&& mixes_to(silent, mix, mid, next, loop_frames, channels, b.drop_last(), then)
                &&& #[trigger] mixes_one(silent, mix, then, slot, b.last(), after)
            };
        law_mix_two_blocks(
            silent,
            mix,
            before,
            start,
            loop_frames,
            channels,
            a,
            mid,
            b.drop_last(),
            then,
        );
        lemma_fundamental_div_mod(a.len() as int, channels);
        assert(channels * n == n * channels) by (nonlinear_arith);
        lemma_div_mod_step(a.len() as int, channels);
        lemma_slot_after(start, loop_frames, channels, n, b.len() - 1);
        assert((a + b).drop_last() == a + b.drop_last());
        assert((a + b).last() == b.last());
        assert(write_slot(start, loop_frames, channels, (a + b).len() - 1) == slot);
        assert(mixes_one(silent, mix, then, slot, (a + b).last(), after));
    }
}

/// `blocks` one after the other.
pub open spec fn joined<T>(blocks: Seq<Seq<T>>) -> Seq<T>
    decreases blocks.len(),
{
    if blocks.len() == 0 {
        Seq::empty()
    } else {
        joined(blocks.drop_last()) + blocks.last()
    }
}

/// However captured audio is cut into blocks of whole frames, mixing in block by
/// block is mixing in all of it at once: `bufs[i]` is the loop before block `i`.
pub proof fn law_mix_blocks<T, Q: Fn(T) -> bool, F: Fn(T, T) -> T>(
    silent: Q,
    mix: F,
    start: int,
    loop_frames: int,
    channels: int,
    blocks: Seq<Seq<T>>,
    bufs: Seq<Seq<T>>,
)
    requires
        0 < loop_frames,
        0 < channels,
        bufs.len() == blocks.len() + 1,
        forall|i: int| 0 <= i < blocks.len() ==> (#[trigger] blocks[i]).len() as int % channels == 0,
        forall|i: int|
            0 <= i < blocks.len() ==> mixes_to(
                silent,
                mix,
                bufs[i],
                frame_after(
                    start,
                    loop_frames,
                    whole_frames(joined(blocks.take(i)).len() as int, channels),
                ),
                loop_frames,
                channels,
                #[trigger] blocks[i],
                bufs[i + 1],
            ),
    ensures
        mixes_to(silent, mix, bufs[0], start, loop_frames, channels, joined(blocks), bufs.last()),
        joined(blocks).len() as int % channels == 0,
    decreases blocks.len(),
{
    if blocks.len() == 0 {
        assert(0int % channels == 0) by (nonlinear_arith)
            requires
                0 < channels,
        ;
    } else {
        let shorter = blocks.drop_last();
        let n = shorter.len() as int;
        assert(shorter == blocks.take(n));
        assert forall|i: int| 0 <= i < n implies mixes_to(
            silent,
            mix,
            bufs.drop_last()[i],
            frame_after(
                start,
                loop_frames,
                whole_frames(joined(shorter.take(i)).len() as int, channels),
            ),
            loop_frames,
            channels,
            #[trigger] shorter[i],
            bufs.drop_last()[i + 1],
        ) by {
            assert(shorter[i] == blocks[i]);
            assert(shorter.take(i) == blocks.take(i));
        }
        assert forall|i: int| 0 <= i < n implies (#[trigger] shorter[i]).len() as int % channels
            == 0 by {
            assert(shorter[i] == blocks[i]);
        }
        law_mix_blocks(silent, mix, start, loop_frames, channels, shorter, bufs.drop_last());
        let a = joined(shorter);
        let b = blocks[n];
        law_mix_two_blocks(
            silent,
            mix,
            bufs[0],
            start,
            loop_frames,
            channels,
            a,
            bufs[n],
            b,
            bufs[n + 1],
        );
        lemma_mod_adds(a.len() as int, b.len() as int, channels);
        lemma_div_mod_step((a.len() + b.len()) as int, channels);
    }
}

/// Which sample of a pass that begins at frame `start` goes to `slot`.
pub open spec fn pass_index(start: int, loop_frames: int, channels: int, slot: int) -> int {
    ((slot / channels - start) % loop_frames) * channels + slot % channels
}

/// Quotient and remainder of a frame number and a channel put together.
proof fn lemma_slot_parts(frame: int, channels: int, ch: int)
    requires
        0 <= ch < channels,
    ensures
        (frame * channels + ch) / channels == frame,
        (frame * channels + ch) % channels == ch,
{
    lemma_fundamental_div_mod_converse(frame * channels + ch, channels, frame, ch);
}

/// The frame and the channel of one of a loop's slots.
proof fn lemma_slot_bounds(loop_frames: int, channels: int, k: int)
    requires
        0 < channels,
        0 <= k < loop_frames * channels,
    ensures
        0 <= k / channels < loop_frames,
        0 <= k % channels < channels,
        k == (k / channels) * channels + k % channels,
{
    lemma_div_mod_step(k, channels);
    lemma_fundamental_div_mod(k, channels);
    assert(channels * (k / channels) == (k / channels) * channels) by (nonlinear_arith);
    assert(k / channels < loop_frames) by (nonlinear_arith)
        requires
            (k / channels) * channels <= k,
            k < loop_frames * channels,
            0 < channels,
    ;
}

/// A pass over the loop, as many samples as it has slots, sends exactly one sample
/// to each slot: `write_slot` and `pass_index` undo each other.
pub proof fn law_pass_reaches_each_slot_once(start: int, loop_frames: int, channels: int, k: int)
    requires
        0 <= start < loop_frames,
        0 < channels,
        0 <= k < loop_frames * channels,
    ensures
        0 <= write_slot(start, loop_frames, channels, k) < loop_frames * channels,
        pass_index(start, loop_frames, channels, write_slot(start, loop_frames, channels, k)) == k,
        0 <= pass_index(start, loop_frames, channels, k) < loop_frames * channels,
        write_slot(start, loop_frames, channels, pass_index(start, loop_frames, channels, k)) == k,
{
    lemma_slot_bounds(loop_frames, channels, k);
    let ch = k % channels;
    // From a sample to its slot and back.
    let f = k / channels;
    let frame = frame_after(start, loop_frames, f);
    lemma_small_mod(start as nat, loop_frames as nat);
    assert(frame == (start + f) % loop_frames);
    lemma_slot_parts(frame, channels, ch);
    lemma_sub_mod_noop(start + f, start, loop_frames);
    lemma_sub_mod_noop(frame, start, loop_frames);
    lemma_small_mod(frame as nat, loop_frames as nat);
    lemma_small_mod(f as nat, loop_frames as nat);
    assert((frame - start) % loop_frames == f);
    assert(0 <= frame * channels + ch < loop_frames * channels) by (nonlinear_arith)
        requires
            0 <= frame < loop_frames,
            0 <= ch < channels,
    ;
    // From a slot to its sample and back.
    let back = (f - start) % loop_frames;
    lemma_slot_parts(back, channels, ch);
    lemma_add_mod_noop_right(start, f - start, loop_frames);
    assert((start + back) % loop_frames == f);
    assert(0 <= back * channels + ch < loop_frames * channels) by (nonlinear_arith)
        requires
            0 <= back < loop_frames,
            0 <= ch < channels,
    ;
}

/// In up to one pass over the loop, each slot that a sample goes to is mixed once,
/// with that sample and with what the slot held at the start, and every other slot
/// keeps what it held. Samples whose slot the buffer lacks are skipped.
pub proof fn law_pass_mixes_once<T, Q: Fn(T) -> bool, F: Fn(T, T) -> T>(
    silent: Q,
    mix: F,
    before: Seq<T>,
    start: int,
    loop_frames: int,
    channels: int,
    data: Seq<T>,
    after: Seq<T>,
)
    requires
        0 <= start < loop_frames,
        0 < channels,
        data.len() <= loop_frames * channels,
        mixes_to(silent, mix, before, start, loop_frames, channels, data, after),
    ensures
        after.len() == before.len(),
        forall|k: int|
            #![trigger data[k]]
            0 <= k < data.len() ==> {
                let slot = write_slot(start, loop_frames, channels, k);
                slot < before.len() ==> becomes(silent, mix, before[slot], data[k], after[slot])
            },
        forall|j: int|
            0 <= j < before.len() && !(j < loop_frames * channels && pass_index(
                start,
                loop_frames,
                channels,
                j,
            ) < data.len()) ==> #[trigger] after[j] == before[j],
    decreases data.len(),
{
    if data.len() > 0 {
        let last = data.len() - 1;
        let shorter = data.drop_last();
        let slot = write_slot(start, loop_frames, channels, last);
        let mid = choose|mid: Seq<T>|
            {
                &&& mixes_to(silent, mix, before, start, loop_frames, channels, shorter, mid)
                &&& #[trigger] mixes_one(silent, mix, mid, slot, data.last(), after)
            };
        law_pass_mixes_once(silent, mix, before, start, loop_frames, channels, shorter, mid);
        law_pass_reaches_each_slot_once(start, loop_frames, channels, last);
        assert(slot < before.len() ==> mid[slot] == before[slot]);
        assert forall|k: int|
            #![trigger data[k]]
            0 <= k < data.len() implies {
            let at = write_slot(start, loop_frames, channels, k);
            at < before.len() ==> becomes(silent, mix, before[at], data[k], after[at])
        } by {
            let at = write_slot(start, loop_frames, channels, k);
            law_pass_reaches_each_slot_once(start, loop_frames, channels, k);
            if k < last {
                assert(shorter[k] == data[k]);
                assert(at != slot);
                assert(at < before.len() ==> after[at] == mid[at]);
            }
        }
        assert forall|j: int|
            0 <= j < before.len() && !(j < loop_frames * channels && pass_index(
                start,
                loop_frames,
                channels,
                j,
            ) < data.len()) implies #[trigger] after[j] == before[j] by {
            assert(j != slot);
            assert(mid[j] == before[j]);
        }
    }
}

/// A pass of an overdub writes each loop frame exactly once, however the captured
/// audio was cut into blocks of whole frames: at the end every slot of the loop holds
/// what it held at the start mixed with the one sample that went there, and the next
/// frame to write is the first one again. `bufs[i]` is the loop before block `i`.
pub proof fn law_overdub_pass<T, Q: Fn(T) -> bool, F: Fn(T, T) -> T>(
    silent: Q,
    mix: F,
    start: int,
    loop_frames: int,
    channels: int,
    blocks: Seq<Seq<T>>,
    bufs: Seq<Seq<T>>,
)
    requires
        0 <= start < loop_frames,
        0 < channels,
        bufs.len() == blocks.len() + 1,
        forall|i: int| 0 <= i < blocks.len() ==> (#[trigger] blocks[i]).len() as int % channels == 0,
        forall|i: int|
            0 <= i < blocks.len() ==> mixes_to(
                silent,
                mix,
                bufs[i],
                frame_after(
                    start,
                    loop_frames,
                    whole_frames(joined(blocks.take(i)).len() as int, channels),
                ),
                loop_frames,
                channels,
                #[trigger] blocks[i],
                bufs[i + 1],
            ),
        joined(blocks).len() == loop_frames * channels,
        loop_frames * channels <= bufs[0].len(),
    ensures
        bufs.last().len() == bufs[0].len(),
        forall|slot: int|
            0 <= slot < loop_frames * channels ==> becomes(
                silent,
                mix,
                bufs[0][slot],
                joined(blocks)[pass_index(start, loop_frames, channels, slot)],
                #[trigger] bufs.last()[slot],
            ),
        forall|slot: int|
            loop_frames * channels <= slot < bufs[0].len() ==> #[trigger] bufs.last()[slot]
                == bufs[0][slot],
        frame_after(
            start,
            loop_frames,
            whole_frames(joined(blocks).len() as int, channels),
        ) == start,
{
    let data = joined(blocks);
    law_mix_blocks(silent, mix, start, loop_frames, channels, blocks, bufs);
    law_pass_mixes_once(silent, mix, bufs[0], start, loop_frames, channels, data, bufs.last());
    assert forall|slot: int| 0 <= slot < loop_frames * channels implies becomes(
        silent,
        mix,
        bufs[0][slot],
        data[pass_index(start, loop_frames, channels, slot)],
        #[trigger] bufs.last()[slot],
    ) by {
        law_pass_reaches_each_slot_once(start, loop_frames, channels, slot);
        let k = pass_index(start, loop_frames, channels, slot);
        assert(becomes(silent, mix, bufs[0][slot], data[k], bufs.last()[slot]));
    }
    lemma_fundamental_div_mod_converse(loop_frames * channels, channels, loop_frames, 0);
    law_full_turn(start, loop_frames);
}

/// Where a sample goes: channel `c` of the `f`-th frame mixed in goes to channel `c` of the
/// loop frame that lies `f` frames after the first one written, round the loop. And so
/// many samples are `f` whole frames.
pub proof fn law_slot_of_sample(start: int, loop_frames: int, channels: int, f: int, c: int)
    requires
        0 < loop_frames,
        0 <= c < channels,
        0 <= f,
    ensures
        f == 0 ==> write_slot(start, loop_frames, channels, c) == start * channels + c,
        f > 0 || 0 <= start < loop_frames ==> write_slot(
            start,
            loop_frames,
            channels,
            f * channels + c,
        ) == ((start + f) % loop_frames) * channels + c,
        whole_frames(f * channels + c, channels) == f,
{
    lemma_slot_parts(f, channels, c);
    if f == 0 {
        assert(f * channels + c == c);
    }
    law_frame_position(start, loop_frames, f);
}

/// Mixing up to one pass of the loop, said slot by slot. Channel `c` of frame `f` meets what
/// channel `c` of loop frame `start + f`, round the loop, held before: if it is silent that
/// stays, and if not it becomes the mix of the two. A slot outside the buffer is skipped.
pub proof fn law_block_mixes<T, Q: Fn(T) -> bool, F: Fn(T, T) -> T>(
    silent: Q,
    mix: F,
    before: Seq<T>,
    start: int,
    loop_frames: int,
    channels: int,
    data: Seq<T>,
    after: Seq<T>,
    f: int,
    c: int,
)
    requires
        0 <= start < loop_frames,
        data.len() <= loop_frames * channels,
        mixes_to(silent, mix, before, start, loop_frames, channels, data, after),
        0 <= f,
        0 <= c < channels,
        f * channels + c < data.len(),
    ensures
        after.len() == before.len(),
        ({
            let slot = ((start + f) % loop_frames) * channels + c;
            let sample = data[f * channels + c];
            0 <= slot < before.len() ==> {
                ||| call_ensures(silent, (sample,), true) && after[slot] == before[slot]
                ||| call_ensures(silent, (sample,), false) && call_ensures(
                    mix,
                    (before[slot], sample),
                    after[slot],
                )
            }
        }),
{
    let k = f * channels + c;
    law_pass_mixes_once(silent, mix, before, start, loop_frames, channels, data, after);
    law_slot_of_sample(start, loop_frames, channels, f, c);
    assert(0 <= k) by (nonlinear_arith)
        requires
            0 <= f,
            0 < channels,
            0 <= c,
            k == f * channels + c,
    ;
    let sample = data[k];
}

/// Mixing up to one pass of the loop leaves every slot alone that no sample goes to: those
/// behind the loop, and those whose turn, counted from the first frame written, is past the
/// last sample.
pub proof fn law_block_leaves_rest<T, Q: Fn(T) -> bool, F: Fn(T, T) -> T>(
    silent: Q,
    mix: F,
    before: Seq<T>,
    start: int,
    loop_frames: int,
    channels: int,
    data: Seq<T>,
    after: Seq<T>,
    j: int,
)
    requires
        0 <= start < loop_frames,
        0 < channels,
        data.len() <= loop_frames * channels,
        mixes_to(silent, mix, before, start, loop_frames, channels, data, after),
        0 <= j < before.len(),
        j >= loop_frames * channels || ((j / channels - start) % loop_frames) * channels + j
            % channels >= data.len(),
    ensures
        after.len() == before.len(),
        after[j] == before[j],
{
    law_pass_mixes_once(silent, mix, before, start, loop_frames, channels, data, after);
    let kept = after[j];
}

/// Mixing in no more than one frame, from any frame, or any number of samples with no
/// channels: sample `k` goes to the `k`-th slot from the frame's first on, or from the
/// buffer's first on if there are no channels, and nothing else changes.
pub proof fn law_one_frame_mixes<T, Q: Fn(T) -> bool, F: Fn(T, T) -> T>(
    silent: Q,
    mix: F,
    before: Seq<T>,
    start: int,
    loop_frames: int,
    channels: int,
    data: Seq<T>,
    after: Seq<T>,
    j: int,
)
    requires
        0 <= start,
        0 < loop_frames,
        0 <= channels,
        channels == 0 || data.len() <= channels,
        mixes_to(silent, mix, before, start, loop_frames, channels, data, after),
        0 <= j < before.len(),
    ensures
        after.len() == before.len(),
        ({
            let k = j - start * channels;
            if 0 <= k < data.len() {
                ||| call_ensures(silent, (data[k],), true) && after[j] == before[j]
                ||| call_ensures(silent, (data[k],), false) && call_ensures(
                    mix,
                    (before[j], data[k]),
                    after[j],
                )
            } else {
                after[j] == before[j]
            }
        }),
    decreases data.len(),
{
    assert(channels == 0 ==> start * channels == 0) by (nonlinear_arith);
    assert(0 <= start * channels) by (nonlinear_arith)
        requires
            0 <= start,
            0 <= channels,
    ;
    if data.len() > 0 {
        let last = data.len() - 1;
        let shorter = data.drop_last();
        let slot = write_slot(start, loop_frames, channels, last);
        let mid = choose|mid: Seq<T>|
            {
                &&& mixes_to(silent, mix, before, start, loop_frames, channels, shorter, mid)
                &&& #[trigger] mixes_one(silent, mix, mid, slot, data.last(), after)
            };
        law_one_frame_mixes(
            silent,
            mix,
            before,
            start,
            loop_frames,
            channels,
            shorter,
            mid,
            j,
        );
        if channels > 0 {
            law_slot_of_sample(start, loop_frames, channels, 0, last);
        }
        assert(slot == start * channels + last);
        let k = j - start * channels;
        assert(0 <= k < shorter.len() ==> shorter[k] == data[k]);
    }
}

/// Mixing in both of two blocks, the first of which holds whole frames, is mixing in the one
/// and then the other, from where the first one ends.
pub proof fn law_mix_splits<T, Q: Fn(T) -> bool, F: Fn(T, T) -> T>(
    silent: Q,
    mix: F,
    before: Seq<T>,
    start: int,
    loop_frames: int,
    channels: int,
    a: Seq<T>,
    b: Seq<T>,
    after: Seq<T>,
) -> (mid: Seq<T>)
    requires
        0 <= start < loop_frames,
        0 < channels,
        a.len() as int % channels == 0,
        mixes_to(silent, mix, before, start, loop_frames, channels, a + b, after),
    ensures
        mixes_to(silent, mix, before, start, loop_frames, channels, a, mid),
        mixes_to(
            silent,
            mix,
            mid,
            (start + a.len() as int / channels) % loop_frames,
            loop_frames,
            channels,
            b,
            after,
        ),
    decreases b.len(),
{
    let n = a.len() as int / channels;
    lemma_div_mod_step(a.len() as int, channels);
    law_frame_position(start, loop_frames, n);
    let next = (start + n) % loop_frames;
    if b.len() == 0 {
        assert(a + b == a);
        after
    } else {
        let ab = a + b;
        let slot = write_slot(start, loop_frames, channels, ab.len() - 1);
        let then = choose|then: Seq<T>|
            {
                &&& mixes_to(
                    silent,
                    mix,
                    before,
                    start,
                    loop_frames,
                    channels,
                    ab.drop_last(),
                    then,
                )
                &&& #[trigger] mixes_one(silent, mix, then, slot, ab.last(), after)
            };
        assert(ab.drop_last() == a + b.drop_last());
        let mid = law_mix_splits(
            silent,
            mix,
            before,
            start,
            loop_frames,
            channels,
            a,
            b.drop_last(),
            then,
        );
        lemma_fundamental_div_mod(a.len() as int, channels);
        assert(channels * n == n * channels) by (nonlinear_arith);
        lemma_slot_after(start, loop_frames, channels, n, b.len() - 1);
        assert(write_slot(next, loop_frames, channels, b.len() - 1) == slot);
        assert(mixes_one(silent, mix, then, slot, b.last(), after));
        mid
    }
}

/// What a block of input does to the loop, from the device's samples on, in up to one pass:
/// channel `c` of device frame `f`, converted, meets what channel `c` of loop frame
/// `start + f`, round the loop, held before. The channels that are not used go nowhere: the
/// converted samples are those of the used ones alone.
pub proof fn law_input_reaches_loop<
    S,
    T,
    C: Fn(S) -> T,
    Q: Fn(T) -> bool,
    F: Fn(T, T) -> T,
>(
    convert: C,
    silent: Q,
    mix: F,
    before: Seq<T>,
    start: int,
    loop_frames: int,
    device: int,
    used: int,
    data: Seq<S>,
    samples: Seq<T>,
    after: Seq<T>,
    f: int,
    c: int,
)
    requires
        0 <= start < loop_frames,
        0 <= c < used <= device,
        0 <= f,
        f * device + c < data.len() <= loop_frames * device,
        converted(convert, selected(data, device, used), samples),
        mixes_to(silent, mix, before, start, loop_frames, used, samples, after),
    ensures
        after.len() == before.len(),
        0 <= f * used + c < samples.len() <= loop_frames * used,
        ({
            let slot = ((start + f) % loop_frames) * used + c;
            let sample = samples[f * used + c];
            &&& call_ensures(convert, (data[f * device + c],), sample)
            &&& 0 <= slot < before.len() ==> {
                ||| call_ensures(silent, (sample,), true) && after[slot] == before[slot]
                ||| call_ensures(silent, (sample,), false) && call_ensures(
                    mix,
                    (before[slot], sample),
                    after[slot],
                )
            }
        }),
{
    law_block_is_converted(convert, data, device, used, samples, f, c);
    law_kept_count(data, device, used);
    let whole = data.len() as int / device;
    let rest = data.len() as int - whole * device;
    assert(whole * used + (if rest <= used {
        rest
    } else {
        used
    }) <= loop_frames * used) by (nonlinear_arith)
        requires
            whole * device + rest <= loop_frames * device,
            0 <= rest < device,
            0 < used <= device,
    ;
    law_block_mixes(
        silent,
        mix,
        before,
        start,
        loop_frames,
        used,
        samples,
        after,
        f,
        c,
    );
}

} // verus!
