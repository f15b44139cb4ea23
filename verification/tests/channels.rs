use looper::channels::{capture_block, convert_block, select_channels, used_channel_count};

#[test]
fn at_most_two_channels_are_used() {
    assert_eq!(used_channel_count(0), 0);
    assert_eq!(used_channel_count(1), 1);
    assert_eq!(used_channel_count(2), 2);
    assert_eq!(used_channel_count(6), 2);
    assert_eq!(used_channel_count(u16::MAX), 2);
}

#[test]
fn loopback_channels_are_dropped() {
    let block = [1, 2, -1, -2, 3, 4, -3, -4, 5, 6, -5, -6];
    assert_eq!(select_channels(&block, 4, 2), vec![1, 2, 3, 4, 5, 6]);
    assert_eq!(select_channels(&block, 4, 1), vec![1, 3, 5]);
    assert_eq!(select_channels(&block, 4, 0), Vec::<i32>::new());
}

#[test]
fn all_channels_are_kept_where_there_are_no_more() {
    let block = [1, 2, 3, 4, 5];
    assert_eq!(select_channels(&block, 2, 2), block.to_vec());
    assert_eq!(select_channels(&block, 1, 2), block.to_vec());
}

#[test]
fn a_frame_that_is_cut_short_keeps_its_used_channels() {
    assert_eq!(select_channels(&[1, 2, 3, 4, 5, 6, 7], 3, 2), vec![1, 2, 4, 5, 7]);
}

#[test]
fn an_empty_block_needs_no_channels() {
    assert_eq!(select_channels(&[] as &[u8], 0, 2), Vec::<u8>::new());
}

#[test]
fn kept_sample_k_is_channel_and_frame_of_k() {
    let block: Vec<usize> = (0..60).collect();
    let kept = select_channels(&block, 5, 2);
    assert_eq!(kept.len(), 24);
    for (k, s) in kept.iter().enumerate() {
        assert_eq!(*s, (k / 2) * 5 + k % 2);
    }
}

#[test]
fn selecting_block_by_block_is_selecting_at_once() {
    let all: Vec<u32> = (0..24).collect();
    let mut parts = select_channels(&all[..9], 3, 2);
    parts.extend(select_channels(&all[9..], 3, 2));
    assert_eq!(parts, select_channels(&all, 3, 2));
}

#[test]
fn captured_blocks_are_appended() {
    let mut buffer: Vec<f32> = vec![0.25];
    capture_block(&mut buffer, &[0.5f32, -0.5, 9.0], 3, 2, |s: f32| s);
    assert_eq!(buffer, vec![0.25, 0.5, -0.5]);
    capture_block(&mut buffer, &[16384i16, 0, 1], 3, 1, |s: i16| s as f32 / 32768.0);
    assert_eq!(buffer, vec![0.25, 0.5, -0.5, 0.5]);
    capture_block(&mut buffer, &[] as &[f32], 0, 0, |s: f32| s);
    assert_eq!(buffer.len(), 4);
}

#[test]
fn a_block_is_selected_and_converted() {
    assert_eq!(convert_block(&[1u16, 2, 3, 4], 2, 1, |s: u16| s as u32 * 10), vec![10, 30]);
}

#[test]
fn whole_device_frames_give_whole_used_frames() {
    for frames in 0..5usize {
        assert_eq!(select_channels(&vec![0u8; frames * 6], 6, 2).len(), frames * 2);
    }
}
