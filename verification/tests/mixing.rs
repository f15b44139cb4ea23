use looper::mixing::{first_write_frame, mix_into_loop, overdub_block};

fn add(a: i32, b: i32) -> i32 {
    a + b
}

fn silent(s: i32) -> bool {
    s == 0
}

#[test]
fn the_first_write_frame_lies_in_the_loop() {
    assert_eq!(first_write_frame(5, 0), 0);
    assert_eq!(first_write_frame(5, 4), 1);
    assert_eq!(first_write_frame(3, 4), 3);
}

#[test]
fn samples_go_to_the_frames_from_the_write_frame_on() {
    let mut buf = vec![0; 8];
    let mut frame = 1;
    mix_into_loop(&mut buf, &mut frame, 4, 2, &[1, 2, 3, 4], silent, add);
    assert_eq!(buf, vec![0, 0, 1, 2, 3, 4, 0, 0]);
    assert_eq!(frame, 3);
}

#[test]
fn writing_wraps_at_the_end_of_the_loop() {
    let mut buf = vec![100; 6];
    let mut frame = 2;
    mix_into_loop(&mut buf, &mut frame, 3, 2, &[1, 2, 3, 4], silent, add);
    assert_eq!(buf, vec![103, 104, 100, 100, 101, 102]);
    assert_eq!(frame, 1);
}

#[test]
fn a_pass_mixes_each_slot_exactly_once() {
    for start in 0..5usize {
        let mut buf = vec![0; 11];
        let mut frame = start;
        let data = vec![1; 10];
        mix_into_loop(&mut buf, &mut frame, 5, 2, &data, silent, add);
        assert_eq!(buf[..10], [1; 10]);
        assert_eq!(buf[10], 0);
        assert_eq!(frame, start);
    }
}

#[test]
fn blocks_of_whole_frames_mix_like_one() {
    let data: Vec<i32> = (1..=14).collect();
    let mut once = vec![7; 10];
    let mut frame_once = 3;
    mix_into_loop(&mut once, &mut frame_once, 5, 2, &data, silent, add);
    let mut parts = vec![7; 10];
    let mut frame_parts = 3;
    for (from, to) in [(0, 4), (4, 4), (4, 6), (6, 14)] {
        mix_into_loop(&mut parts, &mut frame_parts, 5, 2, &data[from..to], silent, add);
    }
    assert_eq!(parts, once);
    assert_eq!(frame_parts, frame_once);
}

#[test]
fn a_frame_that_is_cut_short_does_not_move_the_write_frame() {
    let mut buf = vec![0; 4];
    let mut frame = 0;
    mix_into_loop(&mut buf, &mut frame, 2, 2, &[5], silent, add);
    assert_eq!((buf.clone(), frame), (vec![5, 0, 0, 0], 0));
    mix_into_loop(&mut buf, &mut frame, 2, 2, &[5, 6], silent, add);
    assert_eq!((buf, frame), (vec![10, 6, 0, 0], 1));
}

#[test]
fn without_a_loop_nothing_is_mixed() {
    let mut buf = vec![1, 2];
    let mut frame = 9;
    mix_into_loop(&mut buf, &mut frame, 0, 2, &[5, 5], silent, add);
    assert_eq!((buf, frame), (vec![1, 2], 9));
}

#[test]
fn slots_that_the_buffer_lacks_are_skipped() {
    let mut buf = vec![1, 2, 3];
    let mut frame = 1;
    mix_into_loop(&mut buf, &mut frame, 2, 2, &[10, 20, 30], silent, add);
    assert_eq!((buf, frame), (vec![31, 2, 13], 0));
}

#[test]
fn without_channels_slots_are_counted_up() {
    let mut buf = vec![1, 2, 3];
    let mut frame = 2;
    mix_into_loop(&mut buf, &mut frame, 3, 0, &[10, 20], silent, add);
    assert_eq!((buf, frame), (vec![11, 22, 3], 2));
}

#[test]
fn silence_keeps_the_loop() {
    let mut buf = vec![0.1f32, -0.97, 0.8, 1.5];
    let mut frame = 1;
    let data = [0.0f32, -0.0, 0.0, 0.0, 0.0, 0.0];
    mix_into_loop(&mut buf, &mut frame, 2, 2, &data, |s: f32| s == 0.0, |e: f32, s: f32| {
        (e + s) * 0.5
    });
    assert_eq!(buf, vec![0.1, -0.97, 0.8, 1.5]);
    assert_eq!(frame, 0);
}

#[test]
fn only_what_is_not_silent_is_mixed() {
    let mut buf = vec![10, 20, 30];
    let mut frame = 0;
    mix_into_loop(&mut buf, &mut frame, 3, 1, &[1, 0, 2], silent, |e: i32, s: i32| e * 10 + s);
    assert_eq!((buf, frame), (vec![101, 20, 302], 0));
}

#[test]
fn overdubbing_selects_converts_and_mixes() {
    let mut buf = vec![100, 200, 300, 400];
    let mut frame = 1;
    overdub_block(
        &mut buf,
        &mut frame,
        2,
        3,
        2,
        &[1i16, 2, 99, 3, 4, 99],
        |s: i16| s as i32 * 10,
        silent,
        add,
    );
    assert_eq!((buf, frame), (vec![130, 240, 310, 420], 1));
}

#[test]
fn overdubbing_without_a_loop_does_nothing() {
    let mut buf: Vec<i32> = vec![1];
    let mut frame = 4;
    overdub_block(&mut buf, &mut frame, 0, 0, 0, &[1, 2], |s: i32| s, silent, add);
    assert_eq!((buf, frame), (vec![1], 4));
}

#[test]
fn a_loop_longer_than_its_buffer_takes_what_fits() {
    let mut buf = vec![1, 2];
    let mut frame = 0;
    mix_into_loop(&mut buf, &mut frame, usize::MAX, 2, &[10, 20, 30, 40], silent, add);
    assert_eq!((buf, frame), (vec![11, 22], 2));
}

#[test]
fn an_overdub_pass_writes_each_frame_once_in_any_blocks() {
    for start in 0..4usize {
        let mut buf = vec![0; 8];
        let mut frame = first_write_frame(start + 4, 4);
        let device: Vec<i32> = vec![1; 12];
        for (from, to) in [(0, 3), (3, 9), (9, 12)] {
            overdub_block(&mut buf, &mut frame, 4, 3, 2, &device[from..to], |s: i32| s, silent, add);
        }
        assert_eq!(buf, vec![1; 8]);
        assert_eq!(frame, start);
    }
}

#[test]
fn any_number_of_passes_stays_in_the_range_that_the_mix_keeps() {
    let clamped = |a: i32, b: i32| (a + b).clamp(-100, 100);
    let mut buf = vec![100, -100, 0, 50, -7, 99];
    for (pass, start) in [0usize, 2, 1, 1, 0].iter().enumerate() {
        let mut frame = *start;
        let data: Vec<i32> = (0..7).map(|i| if (i + pass) % 2 == 0 { 100 } else { -90 }).collect();
        mix_into_loop(&mut buf, &mut frame, 3, 2, &data, silent, clamped);
        assert!(buf.iter().all(|s| -100 <= *s && *s <= 100));
    }
}
