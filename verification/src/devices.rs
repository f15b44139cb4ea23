//! Choosing how to open the input device.
use vstd::prelude::*;

verus! {

/// The sample formats that the looper can decode, and the rest.
#[derive(Clone, Copy, Debug, PartialEq, Eq, Structural)]
pub enum SampleFormat {
    F32,
    I16,
    U16,
    Other,
}

/// A range of configurations that an input device supports.
#[derive(Clone, Copy, Debug, PartialEq, Eq, Structural)]
pub struct InputRange {
    pub channels: u16,
    pub min_sample_rate: u32,
    pub max_sample_rate: u32,
    pub sample_format: SampleFormat,
}

/// How good a format is, the lowest rank being the best. A format that cannot be
/// decoded has no rank.
pub open spec fn rank_of(format: SampleFormat) -> Option<u8> {
    match format {
        SampleFormat::F32 => Some(0),
        SampleFormat::I16 => Some(1),
        SampleFormat::U16 => Some(2),
        SampleFormat::Other => None,
    }
}

/// Whether `range` has exactly `channels` channels, covers `sample_rate` and has a
/// format that can be decoded.
pub open spec fn is_candidate(range: InputRange, channels: u16, sample_rate: u32) -> bool {
    &&& range.channels == channels
    &&& range.min_sample_rate <= sample_rate <= range.max_sample_rate
    &&& rank_of(range.sample_format) is Some
}

/// Whether `picked` is the best candidate among `ranges`: no other has a better
/// format, and none before it has as good a one. `None` means that there is no
/// candidate.
pub open spec fn is_best(
    ranges: Seq<InputRange>,
    channels: u16,
    sample_rate: u32,
    picked: Option<usize>,
) -> bool {
    match picked {
        Some(i) => {
            &&& i < ranges.len()
            &&& is_candidate(ranges[i as int], channels, sample_rate)
            &&& forall|j: int|
                0 <= j < ranges.len() && is_candidate(#[trigger] ranges[j], channels, sample_rate)
                    ==> {
                    let mine = rank_of(ranges[i as int].sample_format)->0;
                    let other = rank_of(ranges[j].sample_format)->0;
                    mine < other || (mine == other && i <= j)
                }
        },
        None => forall|j: int|
            0 <= j < ranges.len() ==> !is_candidate(#[trigger] ranges[j], channels, sample_rate),
    }
}

/// The rank of a format.
pub fn format_rank(format: SampleFormat) -> (rank: Option<u8>)
    ensures
        rank == rank_of(format),
{
    match format {
        SampleFormat::F32 => Some(0),
        SampleFormat::I16 => Some(1),
        SampleFormat::U16 => Some(2),
        SampleFormat::Other => None,
    }
}

/// Finds the range with exactly `channels` channels to open at `sample_rate`.
///
/// The rate is the one that the device already runs at, rather than a range's own
/// and possibly synthetic maximum. A device may offer the same channels and rate
/// under several formats, some of which cannot be decoded.
pub fn pick_input_config_with_channels(
    ranges: &[InputRange],
    channels: u16,
    sample_rate: u32,
) -> (picked: Option<usize>)
    ensures
        is_best(ranges@, channels, sample_rate, picked),
{
    let mut picked: Option<usize> = None;
    let mut picked_rank: u8 = 0;
    let mut i: usize = 0;
    while i < ranges.len()
        invariant
            i <= ranges.len(),
            is_best(ranges@.take(i as int), channels, sample_rate, picked),
            picked matches Some(p) ==> Some(picked_rank) == rank_of(ranges@[p as int].sample_format),
        decreases ranges.len() - i,
    {
        let range: InputRange = ranges[i];
        let ghost seen = ranges@.take(i as int);
        let ghost now = ranges@.take(i + 1);
        assert(now == seen.push(range));
        assert(forall|j: int| 0 <= j < i ==> #[trigger] now[j] == seen[j]);
        if range.channels == channels && range.min_sample_rate <= sample_rate && sample_rate
            <= range.max_sample_rate {
            match format_rank(range.sample_format) {
                Some(rank) => {
                    if picked.is_none() || rank < picked_rank {
                        picked = Some(i);
                        picked_rank = rank;
                    }
                },
                None => {},
            }
        }
        i = i + 1;
    }
    assert(ranges@.take(i as int) == ranges@);
    picked
}

/// The channel count to ask the input device for: its true one, if that is known
/// and is more than the device offers by default.
pub fn wanted_channels(true_count: Option<u16>, default_channels: u16) -> (wanted: Option<u16>)
    ensures
        wanted == match true_count {
            Some(n) => if n > default_channels {
                Some(n)
            } else {
                None
            },
            None => None,
        },
{
    match true_count {
        Some(n) => {
            if n > default_channels {
                Some(n)
            } else {
                None
            }
        },
        None => None,
    }
}

/// Which of the ranges that the input device lists to open at its default rate.
/// `None` is for the default configuration: there is nothing to gain over it, the
/// device does not list its ranges, or none of them will do.
pub fn choose_input_config(
    true_count: Option<u16>,
    default_channels: u16,
    default_sample_rate: u32,
    ranges: Option<Vec<InputRange>>,
) -> (choice: Option<usize>)
    ensures
        match (true_count, ranges) {
            (Some(n), Some(listed)) if n > default_channels => is_best(
                listed@,
                n,
                default_sample_rate,
                choice,
            ),
            _ => choice is None,
        },
{
    match wanted_channels(true_count, default_channels) {
        Some(n) => match ranges {
            Some(listed) => pick_input_config_with_channels(
                listed.as_slice(),
                n,
                default_sample_rate,
            ),
            None => None,
        },
        None => None,
    }
}

/// The best candidate is determined: there is one answer at most.
pub proof fn law_best_is_unique(
    ranges: Seq<InputRange>,
    channels: u16,
    sample_rate: u32,
    a: Option<usize>,
    b: Option<usize>,
)
    requires
        is_best(ranges, channels, sample_rate, a),
        is_best(ranges, channels, sample_rate, b),
    ensures
        a == b,
{
}

/// If any range has exactly the wanted channels, covers the rate, its own two ends
/// included, and has a format that can be decoded, then a range is picked.
pub proof fn law_fitting_range_is_enough(
    ranges: Seq<InputRange>,
    channels: u16,
    sample_rate: u32,
    picked: Option<usize>,
    j: int,
)
    requires
        is_best(ranges, channels, sample_rate, picked),
        0 <= j < ranges.len(),
        ranges[j].channels == channels,
        ranges[j].min_sample_rate <= sample_rate,
        sample_rate <= ranges[j].max_sample_rate,
        ranges[j].sample_format is F32 || ranges[j].sample_format is I16
            || ranges[j].sample_format is U16,
    ensures
        picked is Some,
{
    assert(is_candidate(ranges[j], channels, sample_rate));
}

/// A range that is picked is one of the list, has exactly the wanted channels, covers the
/// rate and has a format that can be decoded.
pub proof fn law_picked_range_fits(
    ranges: Seq<InputRange>,
    channels: u16,
    sample_rate: u32,
    picked: usize,
)
    requires
        is_best(ranges, channels, sample_rate, Some(picked)),
    ensures
        picked < ranges.len(),
        ranges[picked as int].channels == channels,
        ranges[picked as int].min_sample_rate <= sample_rate,
        sample_rate <= ranges[picked as int].max_sample_rate,
        !(ranges[picked as int].sample_format is Other),
{
}

/// No other range that fits is better than the one picked: `F32` goes before `I16`, `I16`
/// before `U16`, and of equal formats the first goes before the later ones.
pub proof fn law_picked_range_is_preferred(
    ranges: Seq<InputRange>,
    channels: u16,
    sample_rate: u32,
    picked: usize,
    j: int,
)
    requires
        is_best(ranges, channels, sample_rate, Some(picked)),
        0 <= j < ranges.len(),
        ranges[j].channels == channels,
        ranges[j].min_sample_rate <= sample_rate,
        sample_rate <= ranges[j].max_sample_rate,
    ensures
        ranges[j].sample_format is F32 ==> ranges[picked as int].sample_format is F32,
        ranges[j].sample_format is I16 ==> !(ranges[picked as int].sample_format is U16),
        ranges[j].sample_format == ranges[picked as int].sample_format ==> picked <= j,
{
    if !(ranges[j].sample_format is Other) {
        assert(is_candidate(ranges[j], channels, sample_rate));
    }
}

/// The formats rank in the order `F32`, `I16`, `U16`, and no other has a rank.
pub proof fn law_format_order()
    ensures
        rank_of(SampleFormat::F32) is Some,
        rank_of(SampleFormat::I16) is Some,
        rank_of(SampleFormat::U16) is Some,
        rank_of(SampleFormat::F32)->0 < rank_of(SampleFormat::I16)->0,
        rank_of(SampleFormat::I16)->0 < rank_of(SampleFormat::U16)->0,
        rank_of(SampleFormat::Other) is None,
{
}

} // verus!
