//! Picking out of a device's interleaved input the channels that the looper uses.
use vstd::arithmetic::div_mod::{
    lemma_fundamental_div_mod, lemma_fundamental_div_mod_converse, lemma_mod_multiples_vanish,
    lemma_small_mod,
};
use vstd::prelude::*;

use crate::frames::lemma_div_mod_step;

verus! {

/// How many leading channels of the input device are recorded and mixed.
///
/// Two keeps things simple (mono or stereo) and leaves out the extra channels
/// (loopback, S/PDIF and the like) that some interfaces put after the analog
/// inputs.
pub const MAX_USED_CHANNELS: u16 = 2;

/// The samples of an interleaved block, `device` samples to a frame, that belong
/// to the first `used` channels, in their order.
pub open spec fn selected<T>(data: Seq<T>, device: int, used: int) -> Seq<T>
    decreases data.len(),
{
    if data.len() == 0 {
        Seq::empty()
    } else {
        let before = selected(data.drop_last(), device, used);
        if (data.len() - 1) % device < used {
            before.push(data.last())
        } else {
            before
        }
    }
}

/// How many of the first `n` samples belong to the first `used` of `device`
/// channels.
pub open spec fn selected_len(n: int, device: int, used: int) -> int {
    (n / device) * used + if n % device < used {
        n % device
    } else {
        used
    }
}

/// Where in its block the `k`-th selected sample stands: channel `k % used` of
/// frame `k / used`.
pub open spec fn selected_position(k: int, device: int, used: int) -> int {
    (k / used) * device + k % used
}

/// Whether `to` holds what `convert` makes of each sample of `from`.
pub open spec fn converted<S, T, F: Fn(S) -> T>(convert: F, from: Seq<S>, to: Seq<T>) -> bool {
    &&& from.len() == to.len()
    &&& forall|k: int|
        0 <= k < from.len() ==> call_ensures(convert, (from[k],), #[trigger] to[k])
}

/// How many channels of a device with `device_channels` are used.
pub fn used_channel_count(device_channels: u16) -> (used: u16)
    ensures
        used == if device_channels < MAX_USED_CHANNELS {
            device_channels
        } else {
            MAX_USED_CHANNELS
        },
{
    if device_channels < MAX_USED_CHANNELS {
        device_channels
    } else {
        MAX_USED_CHANNELS
    }
}

/// Keeps the first `used_channels` samples of each frame of `device_channels`
/// samples.
///
/// Some interfaces expose extra channels beyond the real analog inputs, such as a
/// hardware loopback pair that echoes what is playing. This drops those.
pub fn select_channels<T: Copy>(
    data: &[T],
    device_channels: usize,
    used_channels: usize,
) -> (kept: Vec<T>)
    requires
        data@.len() > 0 ==> device_channels > 0,
    ensures
        kept@ == selected(data@, device_channels as int, used_channels as int),
{
    let mut kept: Vec<T> = Vec::new();
    let mut i: usize = 0;
    assert(data@.take(0) == Seq::<T>::empty());
    while i < data.len()
        invariant
            i <= data.len(),
            data@.len() > 0 ==> device_channels > 0,
            kept@ == selected(data@.take(i as int), device_channels as int, used_channels as int),
        decreases data.len() - i,
    {
        assert(data@.take(i + 1).drop_last() == data@.take(i as int));
        if i % device_channels < used_channels {
            kept.push(data[i]);
        }
        i = i + 1;
    }
    assert(data@.take(i as int) == data@);
    kept
}

/// Appends one block of captured input to a recording: the used channels of
/// `data`, each sample through `convert`.
pub fn capture_block<S: Copy, T, F: Fn(S) -> T>(
    buffer: &mut Vec<T>,
    data: &[S],
    device_channels: usize,
    used_channels: usize,
    convert: F,
)
    requires
        data@.len() > 0 ==> device_channels > 0,
        forall|i: int| 0 <= i < data@.len() ==> call_requires(convert, (#[trigger] data@[i],)),
    ensures
        final(buffer)@.len() >= old(buffer)@.len(),
        final(buffer)@.take(old(buffer)@.len() as int) == old(buffer)@,
        converted(
            convert,
            selected(data@, device_channels as int, used_channels as int),
            final(buffer)@.skip(old(buffer)@.len() as int),
        ),
{
    let kept = convert_block(data, device_channels, used_channels, convert);
    let ghost before = buffer@;
    let ghost added = kept@;
    let mut kept = kept;
    buffer.append(&mut kept);
    assert(buffer@.take(before.len() as int) == before);
    assert(buffer@.skip(before.len() as int) == added);
}

/// The used channels of one block of captured input, each sample through
/// `convert`.
pub fn convert_block<S: Copy, T, F: Fn(S) -> T>(
    data: &[S],
    device_channels: usize,
    used_channels: usize,
    convert: F,
) -> (samples: Vec<T>)
    requires
        data@.len() > 0 ==> device_channels > 0,
        forall|i: int| 0 <= i < data@.len() ==> call_requires(convert, (#[trigger] data@[i],)),
    ensures
        converted(
            convert,
            selected(data@, device_channels as int, used_channels as int),
            samples@,
        ),
{
    let kept = select_channels(data, device_channels, used_channels);
    let mut samples: Vec<T> = Vec::new();
    let mut i: usize = 0;
    while i < kept.len()
        invariant
            i <= kept.len(),
            kept@ == selected(data@, device_channels as int, used_channels as int),
            forall|j: int| 0 <= j < data@.len() ==> call_requires(convert, (#[trigger] data@[j],)),
            samples@.len() == i,
            forall|k: int| 0 <= k < i ==> call_ensures(convert, (kept@[k],), #[trigger] samples@[k]),
        decreases kept.len() - i,
    {
        proof {
            let at = lemma_selected_from(data@, device_channels as int, used_channels as int, i as int);
        }
        samples.push(convert(kept[i]));
        i = i + 1;
    }
    samples
}

/// Every selected sample is one of the block's.
proof fn lemma_selected_from<T>(data: Seq<T>, device: int, used: int, k: int) -> (at: int)
    requires
        0 <= k < selected(data, device, used).len(),
    ensures
        0 <= at < data.len(),
        data[at] == selected(data, device, used)[k],
    decreases data.len(),
{
    let before = selected(data.drop_last(), device, used);
    if k < before.len() {
        let at = lemma_selected_from(data.drop_last(), device, used, k);
        assert(data.drop_last()[at] == data[at]);
        at
    } else {
        data.len() - 1
    }
}

/// The `k`-th sample kept is channel `k % used` of frame `k / used`: selecting
/// keeps exactly the first `used` samples of every frame, also of a last frame
/// that is cut short.
pub proof fn law_selected_positions<T>(data: Seq<T>, device: int, used: int)
    requires
        0 < used <= device,
    ensures
        selected(data, device, used).len() == selected_len(data.len() as int, device, used),
        forall|k: int|
            #![trigger selected(data, device, used)[k]]
            #![trigger selected_position(k, device, used)]
            0 <= k < selected(data, device, used).len() ==> {
                &&& 0 <= selected_position(k, device, used) < data.len()
                &&& selected(data, device, used)[k] == data[selected_position(
                    k,
                    device,
                    used,
                )]
            },
    decreases data.len(),
{
    if data.len() == 0 {
        lemma_small_mod(0, device as nat);
        assert(0int / device == 0) by (nonlinear_arith)
            requires
                0 < device,
        ;
        assert(0 * used == 0);
    } else {
        let n = data.len() - 1;
        let shorter = data.drop_last();
        let before = selected(shorter, device, used);
        let all = selected(data, device, used);
        let q = n / device;
        let r = n % device;
        law_selected_positions(shorter, device, used);
        lemma_div_mod_step(n, device);
        lemma_fundamental_div_mod(n, device);
        assert(device * q == q * device) by (nonlinear_arith);
        assert((q + 1) * used == q * used + used) by (nonlinear_arith);
        if r < used {
            let k = q * used + r;
            assert(all.len() == before.len() + 1 && before.len() == k);
            lemma_fundamental_div_mod_converse(k, used, q, r);
        }
        assert forall|k: int|
            #![trigger all[k]]
            #![trigger selected_position(k, device, used)]
            0 <= k < all.len() implies {
            &&& 0 <= selected_position(k, device, used) < data.len()
            &&& all[k] == data[selected_position(k, device, used)]
        } by {
            if k < before.len() {
                assert(all[k] == before[k]);
                let at = selected_position(k, device, used);
                assert(0 <= at < shorter.len());
                assert(shorter[at] == data[at]);
            }
        }
    }
}

/// Channel `c` of frame `f`, if it is one of the used ones, is kept as channel `c` of
/// frame `f`.
pub proof fn law_used_sample_is_kept<T>(data: Seq<T>, device: int, used: int, f: int, c: int)
    requires
        0 <= c < used <= device,
        0 <= f,
        f * device + c < data.len(),
    ensures
        0 <= f * used + c < selected(data, device, used).len(),
        selected(data, device, used)[f * used + c] == data[f * device + c],
{
    let n = data.len() as int;
    let q = n / device;
    let r = n % device;
    let k = f * used + c;
    law_selected_positions(data, device, used);
    lemma_fundamental_div_mod(n, device);
    lemma_div_mod_step(n, device);
    assert(device * q == q * device) by (nonlinear_arith);
    assert(0 <= k) by (nonlinear_arith)
        requires
            0 <= f,
            0 < used,
            0 <= c,
            k == f * used + c,
    ;
    assert(f <= q) by (nonlinear_arith)
        requires
            f * device + c < q * device + r,
            0 <= c,
            r < device,
            0 < device,
    ;
    if f < q {
        assert(f * used + used <= q * used) by (nonlinear_arith)
            requires
                f + 1 <= q,
                0 < used,
        ;
    }
    lemma_fundamental_div_mod_converse(k, used, f, c);
    assert(selected_position(k, device, used) == f * device + c);
}

/// How many samples are kept: all used ones of every whole frame, and of a last frame that
/// is cut short as many of the used ones as it has.
pub proof fn law_kept_count<T>(data: Seq<T>, device: int, used: int)
    requires
        0 < used <= device,
    ensures
        ({
            let whole = data.len() as int / device;
            let rest = data.len() as int - whole * device;
            &&& 0 <= rest < device
            &&& rest <= used ==> selected(data, device, used).len() == whole * used + rest
            &&& rest >= used ==> selected(data, device, used).len() == whole * used + used
        }),
{
    let whole = data.len() as int / device;
    law_selected_positions(data, device, used);
    lemma_fundamental_div_mod(data.len() as int, device);
    lemma_div_mod_step(data.len() as int, device);
    assert(device * whole == whole * device) by (nonlinear_arith);
}

/// What a block of input is converted to: channel `c` of frame `f`, if it is used, is
/// converted to sample `f * used + c`, and there are as many samples as are kept.
pub proof fn law_block_is_converted<S, T, F: Fn(S) -> T>(
    convert: F,
    data: Seq<S>,
    device: int,
    used: int,
    samples: Seq<T>,
    f: int,
    c: int,
)
    requires
        converted(convert, selected(data, device, used), samples),
        0 <= c < used <= device,
        0 <= f,
        f * device + c < data.len(),
    ensures
        samples.len() == selected(data, device, used).len(),
        0 <= f * used + c < samples.len(),
        call_ensures(convert, (data[f * device + c],), samples[f * used + c]),
{
    law_used_sample_is_kept(data, device, used, f, c);
    let at = samples[f * used + c];
}

/// Out of whole device frames come as many whole frames of the used channels.
pub proof fn law_whole_frames_stay_whole<T>(data: Seq<T>, device: int, used: int)
    requires
        0 < used <= device,
        data.len() as int % device == 0,
    ensures
        selected(data, device, used).len() == (data.len() as int / device) * used,
        selected(data, device, used).len() as int % used == 0,
        selected(data, device, used).len() as int / used == data.len() as int / device,
{
    let n = data.len() as int / device;
    law_selected_positions(data, device, used);
    lemma_fundamental_div_mod_converse(n * used, used, n, 0);
}

/// With no more device channels than used ones, every sample is kept.
pub proof fn law_selected_all<T>(data: Seq<T>, device: int, used: int)
    requires
        0 < device <= used,
    ensures
        selected(data, device, used) == data,
    decreases data.len(),
{
    if data.len() > 0 {
        law_selected_all(data.drop_last(), device, used);
        lemma_div_mod_step(data.len() - 1, device);
        assert(data.drop_last().push(data.last()) == data);
    }
}

/// With no used channels, no sample is kept.
pub proof fn law_selected_none<T>(data: Seq<T>, device: int)
    requires
        data.len() > 0 ==> 0 < device,
    ensures
        selected(data, device, 0) == Seq::<T>::empty(),
    decreases data.len(),
{
    if data.len() > 0 {
        law_selected_none(data.drop_last(), device);
        lemma_div_mod_step(data.len() - 1, device);
    }
}

/// Selecting block by block keeps what selecting from the whole input keeps, as
/// long as each block but the last holds whole frames.
pub proof fn law_selected_blocks<T>(a: Seq<T>, b: Seq<T>, device: int, used: int)
    requires
        0 < device,
        a.len() as int % device == 0,
    ensures
        selected(a + b, device, used) == selected(a, device, used) + selected(b, device, used),
    decreases b.len(),
{
    if b.len() == 0 {
        assert(a + b == a);
        assert(selected(a, device, used) + selected(b, device, used) == selected(a, device, used));
    } else {
        let n = a.len() as int;
        law_selected_blocks(a, b.drop_last(), device, used);
        assert((a + b).drop_last() == a + b.drop_last());
        lemma_fundamental_div_mod(n, device);
        lemma_mod_multiples_vanish(n / device, b.len() - 1, device);
        assert((n + b.len() - 1) % device == (b.len() - 1) % device);
        assert(selected(a + b, device, used) == selected(a, device, used) + selected(
            b,
            device,
            used,
        ));
    }
}

} // verus!
