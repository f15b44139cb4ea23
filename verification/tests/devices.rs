use looper::devices::{
    choose_input_config, format_rank, pick_input_config_with_channels, wanted_channels, InputRange,
    SampleFormat,
};

fn range(channels: u16, min: u32, max: u32, sample_format: SampleFormat) -> InputRange {
    InputRange { channels, min_sample_rate: min, max_sample_rate: max, sample_format }
}

#[test]
fn formats_are_ranked() {
    assert_eq!(format_rank(SampleFormat::F32), Some(0));
    assert_eq!(format_rank(SampleFormat::I16), Some(1));
    assert_eq!(format_rank(SampleFormat::U16), Some(2));
    assert_eq!(format_rank(SampleFormat::Other), None);
}

#[test]
fn the_best_format_is_picked() {
    let ranges = [
        range(6, 1, 192000, SampleFormat::Other),
        range(6, 1, 192000, SampleFormat::U16),
        range(6, 1, 192000, SampleFormat::I16),
        range(2, 1, 192000, SampleFormat::F32),
        range(6, 1, 192000, SampleFormat::F32),
        range(6, 44100, 44100, SampleFormat::F32),
    ];
    assert_eq!(pick_input_config_with_channels(&ranges, 6, 44100), Some(4));
    assert_eq!(pick_input_config_with_channels(&ranges[..4], 6, 44100), Some(2));
    assert_eq!(pick_input_config_with_channels(&ranges[..2], 6, 44100), Some(1));
}

#[test]
fn the_first_of_equal_formats_is_picked() {
    let ranges = [range(4, 1, 9, SampleFormat::I16), range(4, 1, 9, SampleFormat::I16)];
    assert_eq!(pick_input_config_with_channels(&ranges, 4, 9), Some(0));
}

#[test]
fn rate_channels_and_format_must_fit() {
    let ranges = [
        range(6, 8000, 44099, SampleFormat::F32),
        range(6, 44101, 96000, SampleFormat::F32),
        range(5, 1, 96000, SampleFormat::F32),
        range(6, 1, 96000, SampleFormat::Other),
    ];
    assert_eq!(pick_input_config_with_channels(&ranges, 6, 44100), None);
    assert_eq!(pick_input_config_with_channels(&ranges, 6, 44099), Some(0));
    assert_eq!(pick_input_config_with_channels(&ranges, 6, 44101), Some(1));
    assert_eq!(pick_input_config_with_channels(&[], 6, 44100), None);
}

#[test]
fn only_more_channels_are_wanted() {
    assert_eq!(wanted_channels(Some(6), 2), Some(6));
    assert_eq!(wanted_channels(Some(2), 2), None);
    assert_eq!(wanted_channels(Some(1), 2), None);
    assert_eq!(wanted_channels(None, 2), None);
}

#[test]
fn the_default_is_kept_unless_a_range_is_better() {
    let ranges = vec![range(6, 1, 96000, SampleFormat::I16)];
    assert_eq!(choose_input_config(Some(6), 2, 44100, Some(ranges.clone())), Some(0));
    assert_eq!(choose_input_config(Some(6), 6, 44100, Some(ranges.clone())), None);
    assert_eq!(choose_input_config(Some(8), 2, 44100, Some(ranges.clone())), None);
    assert_eq!(choose_input_config(None, 2, 44100, Some(ranges)), None);
    assert_eq!(choose_input_config(Some(6), 2, 44100, None), None);
}
