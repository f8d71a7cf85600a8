use lerp::Lerp;
use mopidy_sound_visualizer::binary32::Binary32;
use mopidy_sound_visualizer::transformation::{
    interpolate_empty, none_to_zero, transform_bands, transform_ffi_to_log_scale, Config,
    LogBandAggregator,
};

fn binary(x: f32) -> Binary32 {
    Binary32::from_bits(x.to_bits())
}

fn native(x: Binary32) -> f32 {
    f32::from_bits(x.to_bits())
}

fn natives(list: Vec<Binary32>) -> Vec<f32> {
    list.into_iter().map(native).collect()
}

fn gapped(list: &[Option<f32>]) -> Vec<Option<Binary32>> {
    list.iter().map(|x| x.map(binary)).collect()
}

fn bits(list: &[f32]) -> Vec<u32> {
    list.iter().map(|x| x.to_bits()).collect()
}

fn boundaries(parts: u32) -> Vec<u32> {
    (0..=parts)
        .map(|n| f32::round(20.0 * f32::powf(1000.0, n as f32 / parts as f32)) as u32)
        .collect()
}

/// The mean of the bands whose frequency lies first in each range, computed band by band.
fn expected_levels(bands: &[f32], rate: u32) -> Vec<Option<f32>> {
    let ends = boundaries(100);
    let width = rate as f32 / 2.0 / bands.len() as f32;
    let mut sums = vec![0.0f32; 100];
    let mut counts = vec![0u32; 100];
    for i in 0..bands.len() {
        let freq = f32::round(i as u32 as f32 * width) as u32;
        let range = (0..100).find(|j| ends[*j] <= freq && freq <= ends[*j + 1]);
        if let Some(j) = range {
            sums[j] += bands[i];
            counts[j] += 1;
        }
    }
    (0..100)
        .map(|j| {
            if counts[j] > 0 {
                Some(sums[j] / counts[j] as f32)
            } else {
                None
            }
        })
        .collect()
}

fn expected_fill(data: &[Option<f32>]) -> Vec<f32> {
    (0..data.len())
        .map(|i| {
            if let Some(x) = data[i] {
                return x;
            }
            let left = (0..i).rev().find(|j| data[*j].is_some());
            let right = (i + 1..data.len()).find(|j| data[*j].is_some());
            match (left, right) {
                (None, None) => 0.0,
                (None, Some(r)) => data[r].unwrap(),
                (Some(l), None) => data[l].unwrap(),
                (Some(l), Some(r)) => {
                    let t = (i as f32 - l as f32) / (r as f32 - l as f32);
                    data[l].unwrap().lerp(data[r].unwrap(), t)
                }
            }
        })
        .collect()
}

fn noise(len: usize, seed: u32) -> Vec<f32> {
    let mut state = seed;
    (0..len)
        .map(|_| {
            state = state.wrapping_mul(1664525).wrapping_add(1013904223);
            -((state >> 8) as f32 / 16777216.0) * 100.0
        })
        .collect()
}

#[test]
fn gaps_take_the_value_between_their_neighbours() {
    let data = gapped(&[None, Some(1.0), None, None, Some(4.0), None]);
    assert_eq!(natives(interpolate_empty(data)), vec![1.0, 1.0, 2.0, 3.0, 4.0, 4.0]);
}

#[test]
fn gaps_without_neighbours_are_zero() {
    let data = gapped(&[None, None, None]);
    assert_eq!(bits(&natives(interpolate_empty(data))), vec![0, 0, 0]);
    assert_eq!(natives(interpolate_empty(vec![])), Vec::<f32>::new());
}

#[test]
fn data_without_gaps_are_kept() {
    let data = [0.1f32, -0.0, f32::INFINITY, 7.5, f32::MIN_POSITIVE];
    let list: Vec<Option<f32>> = data.iter().map(|x| Some(*x)).collect();
    assert_eq!(bits(&natives(interpolate_empty(gapped(&list)))), bits(&data));
}

#[test]
fn interpolation_follows_the_native_formula() {
    for seed in 1u32..30 {
        let values = noise(60, seed);
        let data: Vec<Option<f32>> = (0..60)
            .map(|i| {
                if (values[i].to_bits() >> 3) % 4 == 0 {
                    Some(values[i])
                } else {
                    None
                }
            })
            .collect();
        let ours = natives(interpolate_empty(gapped(&data)));
        assert_eq!(bits(&ours), bits(&expected_fill(&data)));
    }
}

#[test]
fn none_becomes_zero() {
    let data = gapped(&[None, Some(3.5), None]);
    assert_eq!(natives(none_to_zero(data)), vec![0.0, 3.5, 0.0]);
}

#[test]
fn aggregators_average() {
    let mut aggregator: LogBandAggregator = Default::default();
    assert!(aggregator.get_avg().is_none());
    aggregator.add_ffi_band(binary(1.0));
    assert_eq!(native(aggregator.get_avg().unwrap()), 1.0);
    aggregator.add_ffi_band(binary(2.0));
    aggregator.add_ffi_band(binary(6.0));
    assert_eq!(native(aggregator.get_avg().unwrap()), 3.0);
    assert_eq!(aggregator.ffi_bands_count, 3);
}

#[test]
fn log_levels_are_means_of_the_first_matching_range() {
    for (len, rate) in [(1usize, 96000u32), (7, 8000), (400, 44100), (2000, 44100), (4096, 96000)] {
        let bands = noise(len, len as u32);
        let ours = transform_ffi_to_log_scale(bands.iter().map(|x| binary(*x)).collect(), rate);
        let ours: Vec<Option<u32>> = ours.into_iter().map(|x| x.map(|y| y.to_bits())).collect();
        let expected: Vec<Option<u32>> =
            expected_levels(&bands, rate).into_iter().map(|x| x.map(|y| y.to_bits())).collect();
        assert_eq!(ours, expected);
    }
}

#[test]
fn bands_are_raised_scaled_and_filled() {
    for (len, rate) in [(1usize, 96000u32), (33, 22050), (2000, 44100), (4096, 96000)] {
        let bands = noise(len, 77 + len as u32);
        let config = Config { db_threshold: binary(-100.0), sampling_rate: rate };
        let ours = natives(transform_bands(bands.iter().map(|x| binary(*x)).collect(), config));
        let raised: Vec<f32> = bands.iter().map(|x| *x + 100.0).collect();
        let expected = expected_fill(&expected_levels(&raised, rate));
        assert_eq!(ours.len(), 100);
        assert_eq!(bits(&ours), bits(&expected));
    }
}

#[test]
fn a_silent_spectrum_has_no_level() {
    let config = Config { db_threshold: binary(-100.0), sampling_rate: 96000 };
    let levels = natives(transform_bands(vec![binary(-100.0); 4096], config));
    assert_eq!(levels, vec![0.0; 100]);
}

#[test]
fn a_constant_spectrum_has_constant_levels() {
    let config = Config { db_threshold: binary(-80.0), sampling_rate: 96000 };
    let levels = natives(transform_bands(vec![binary(-16.0); 4096], config));
    assert_eq!(levels, vec![64.0; 100]);
}

#[test]
fn what_is_no_number_spreads() {
    let config = Config { db_threshold: binary(-80.0), sampling_rate: 96000 };
    let levels = natives(transform_bands(vec![binary(f32::NAN); 4096], config));
    assert!(levels.iter().all(|x| x.is_nan()));
}

#[test]
fn no_level_is_below_zero() {
    for len in [1usize, 50, 4096] {
        let mut bands = noise(len, 5 + len as u32);
        bands[0] = -100.0;
        if len > 1 {
            bands[1] = f32::INFINITY;
        }
        let config = Config { db_threshold: binary(-100.0), sampling_rate: 44100 };
        let levels = natives(transform_bands(bands.iter().map(|x| binary(*x)).collect(), config));
        assert!(levels.iter().all(|x| *x >= 0.0));
    }
}

#[test]
fn positions_between_others_are_fractions_of_the_way() {
    for (left, i, right) in [(0u64, 1u64, 2u64), (0, 50, 99), (3, 4, 99), (98, 98, 99), (16777213, 16777214, 16777215)] {
        let from = Binary32::from_whole(left);
        let t = native(Binary32::from_whole(i).minus(from).over(Binary32::from_whole(right).minus(from)));
        assert!((0.0..=1.0).contains(&t));
    }
    let same = Binary32::from_whole(16777216);
    let t = Binary32::from_whole(16777217).minus(same).over(Binary32::from_whole(16777217).minus(same));
    assert!(native(t).is_nan());
}
