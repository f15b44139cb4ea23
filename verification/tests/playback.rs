use looper::channels::select_channels;
use looper::playback::{play_block, SILENCE_I16, SILENCE_U16};

#[test]
fn a_stereo_loop_plays_round() {
    let buf = [1, 2, 3, 4, 5, 6];
    let mut out = [0; 8];
    let mut pos = 1;
    play_block(&mut out, &buf, &mut pos, 3, 2, 2, -1, |s: i32| s);
    assert_eq!(out, [3, 4, 5, 6, 1, 2, 3, 4]);
    assert_eq!(pos, 2);
}

#[test]
fn a_mono_loop_fills_every_output_channel() {
    let mut out = [0; 6];
    let mut pos = 0;
    play_block(&mut out, &[7, 8], &mut pos, 2, 1, 3, -1, |s: i32| s);
    assert_eq!(out, [7, 7, 7, 8, 8, 8]);
    assert_eq!(pos, 0);
}

#[test]
fn recorded_channels_repeat_on_wider_outputs_and_are_cut_on_narrower_ones() {
    let mut wide = [0; 6];
    let mut pos = 0;
    play_block(&mut wide, &[1, 2, 3, 4], &mut pos, 2, 2, 3, -1, |s: i32| s);
    assert_eq!(wide, [1, 2, 1, 3, 4, 3]);
    let mut narrow = [0; 2];
    let mut pos = 0;
    play_block(&mut narrow, &[1, 2, 3, 4], &mut pos, 2, 2, 1, -1, |s: i32| s);
    assert_eq!(narrow, [1, 3]);
}

#[test]
fn an_output_frame_that_is_cut_short_counts() {
    let mut out = [0; 3];
    let mut pos = 0;
    play_block(&mut out, &[1, 2, 3, 4], &mut pos, 2, 2, 2, -1, |s: i32| s);
    assert_eq!((out, pos), ([1, 2, 3], 0));
    let mut pos = 0;
    play_block(&mut [0; 1], &[1, 2, 3, 4], &mut pos, 2, 2, 2, -1, |s: i32| s);
    assert_eq!(pos, 1);
}

#[test]
fn without_a_loop_there_is_silence() {
    let mut a = [5i16; 3];
    let mut pos = 4;
    play_block(&mut a, &[1.0f32], &mut pos, 0, 0, 0, SILENCE_I16, |s: f32| s as i16);
    assert_eq!((a, pos), ([0; 3], 4));
    let mut b = [5u16; 2];
    play_block(&mut b, &[1.0f32], &mut pos, 0, 0, 0, SILENCE_U16, |s: f32| s as u16);
    assert_eq!(b, [u16::MAX / 2; 2]);
}

#[test]
fn samples_are_converted() {
    let mut out = [0i16; 2];
    let mut pos = 0;
    play_block(&mut out, &[0.5f32, -0.25], &mut pos, 1, 2, 2, 0, |s: f32| (s * 100.0) as i16);
    assert_eq!(out, [50, -25]);
}

#[test]
fn an_empty_block_leaves_the_position() {
    let mut pos = 1;
    play_block(&mut [] as &mut [i32], &[1, 2], &mut pos, 2, 1, 2, 0, |s: i32| s);
    assert_eq!(pos, 1);
}

#[test]
fn playing_in_blocks_is_playing_at_once() {
    let buf: Vec<u32> = (0..10).collect();
    let mut once = [0u32; 32];
    let mut pos_once = 3;
    play_block(&mut once, &buf, &mut pos_once, 5, 2, 2, 0, |s: u32| s);
    let mut parts = [0u32; 32];
    let mut pos_parts = 3;
    for (from, to) in [(0, 6), (6, 6), (6, 20), (20, 32)] {
        play_block(&mut parts[from..to], &buf, &mut pos_parts, 5, 2, 2, 0, |s: u32| s);
    }
    assert_eq!(parts, once);
    assert_eq!(pos_parts, pos_once);
}

#[test]
fn a_loop_repeats_after_one_turn() {
    let buf: Vec<u32> = (0..6).collect();
    let mut out = [0u32; 24];
    let mut pos = 2;
    play_block(&mut out, &buf, &mut pos, 3, 2, 4, 0, |s: u32| s);
    assert_eq!(out[..12], out[12..]);
    assert_eq!(pos, 2);
}

#[test]
fn what_was_captured_is_what_is_played() {
    let captured: Vec<usize> = (0..12).collect();
    let buf = select_channels(&captured, 4, 2);
    let mut out = [0usize; 14];
    let mut pos = 1;
    play_block(&mut out, &buf, &mut pos, 3, 2, 2, 0, |s: usize| s);
    for f in 0..7 {
        for c in 0..2 {
            assert_eq!(out[f * 2 + c], captured[((1 + f) % 3) * 4 + c]);
        }
    }
}
