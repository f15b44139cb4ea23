//! Counting frames round a loop.
use vstd::arithmetic::div_mod::{
    lemma_add_mod_noop_right, lemma_fundamental_div_mod, lemma_fundamental_div_mod_converse,
    lemma_mod_add_multiples_vanish, lemma_small_mod,
};
use vstd::prelude::*;

verus! {

/// The frame that lies `n` frames after `start` in a loop of `loop_frames` frames.
pub open spec fn frame_after(start: int, loop_frames: int, n: int) -> int {
    if n == 0 {
        start
    } else {
        (start + n) % loop_frames
    }
}

/// How quotient and remainder move from `n` to `n + 1`.
pub proof fn lemma_div_mod_step(n: int, d: int)
    requires
        0 <= n,
        0 < d,
    ensures
        n % d + 1 < d ==> (n + 1) % d == n % d + 1 && (n + 1) / d == n / d,
        n % d + 1 == d ==> (n + 1) % d == 0 && (n + 1) / d == n / d + 1,
        0 <= n % d < d,
        0 <= n / d,
{
    lemma_fundamental_div_mod(n, d);
    assert(d * (n / d) == (n / d) * d) by (nonlinear_arith);
    if n % d + 1 < d {
        lemma_fundamental_div_mod_converse(n + 1, d, n / d, n % d + 1);
    } else {
        assert((n / d + 1) * d == (n / d) * d + d) by (nonlinear_arith);
        lemma_fundamental_div_mod_converse(n + 1, d, n / d + 1, 0);
    }
    assert(0 <= n / d) by (nonlinear_arith)
        requires
            0 <= n,
            0 < d,
    ;
}

/// One frame on: the next frame, or the first after the last.
pub proof fn lemma_frame_after_step(start: int, loop_frames: int, n: int)
    requires
        0 <= n,
        0 < loop_frames,
    ensures
        frame_after(start, loop_frames, n + 1) == (frame_after(start, loop_frames, n) + 1)
            % loop_frames,
{
    if n > 0 {
        lemma_add_mod_noop_right(1, start + n, loop_frames);
    }
}

/// Counted from inside the loop, the `n`-th frame on is `start + n`, less as many whole
/// turns as it takes to come back inside. Counted from outside it, that holds from the
/// first frame on.
pub proof fn law_frame_position(start: int, loop_frames: int, n: int)
    requires
        0 < loop_frames,
        0 <= n,
    ensures
        n == 0 ==> frame_after(start, loop_frames, n) == start,
        n > 0 || 0 <= start < loop_frames ==> {
            &&& 0 <= frame_after(start, loop_frames, n) < loop_frames
            &&& (start + n - frame_after(start, loop_frames, n)) % loop_frames == 0
            &&& frame_after(start, loop_frames, n) == (start + n) % loop_frames
        },
{
    if 0 <= start < loop_frames {
        lemma_small_mod(start as nat, loop_frames as nat);
    }
    let q = (start + n) / loop_frames;
    lemma_fundamental_div_mod(start + n, loop_frames);
    assert(loop_frames * q == q * loop_frames) by (nonlinear_arith);
    lemma_fundamental_div_mod_converse(q * loop_frames, loop_frames, q, 0);
    lemma_small_mod(0, loop_frames as nat);
}

/// A frame inside the loop stays inside it.
pub proof fn law_frame_stays_inside(start: int, loop_frames: int, n: int)
    requires
        0 <= start < loop_frames,
    ensures
        0 <= frame_after(start, loop_frames, n) < loop_frames,
{
}

/// `n` frames and then `m` more are `n + m` frames.
pub proof fn law_frames_add_up(start: int, loop_frames: int, n: int, m: int)
    requires
        0 < loop_frames,
        0 <= n,
        0 <= m,
    ensures
        frame_after(frame_after(start, loop_frames, n), loop_frames, m) == frame_after(
            start,
            loop_frames,
            n + m,
        ),
{
    if n > 0 && m > 0 {
        lemma_add_mod_noop_right(m, start + n, loop_frames);
    }
}

/// As many frames as the loop is long lead back to where they began.
pub proof fn law_full_turn(start: int, loop_frames: int)
    requires
        0 <= start < loop_frames,
    ensures
        frame_after(start, loop_frames, loop_frames) == start,
{
    lemma_mod_add_multiples_vanish(start, loop_frames);
    lemma_small_mod(start as nat, loop_frames as nat);
}

} // verus!
