use mopidy_sound_visualizer::binary32::Binary32;
use mopidy_sound_visualizer::ffi_spectrum::{band_width, get_freq_for_band_n};
use std::collections::HashMap;

#[test]
fn test_ffi_spectrum() {
    let sampling_rate = 44100;
    let bands_count = 2000;
    let expected_width: f32 = 11.025;

    let cases: HashMap<u32, u32> = HashMap::from([
        (0, 0),
        (10, 110),
        (20, 221),
        (200, f32::round(expected_width * 200.0) as u32),
        (bands_count, sampling_rate / 2),
        (bands_count / 2, sampling_rate / 4),
    ]);

    assert_eq!(
        f32::from_bits(band_width(sampling_rate, bands_count).to_bits()),
        expected_width
    );

    for (band, expected) in cases {
        let bw = band_width(sampling_rate, bands_count);
        let result = get_freq_for_band_n(bw, band);
        assert_eq!(result, expected);
    }
}

#[test]
fn band_width_follows_native_division() {
    for rate in [1u32, 2, 3, 7, 8000, 44100, 48000, 96000, 16777217, u32::MAX] {
        for count in [1u32, 2, 3, 5, 100, 2000, 4096, 16777219, u32::MAX] {
            let expected = rate as f32 / 2.0 / count as f32;
            assert_eq!(band_width(rate, count).to_bits(), expected.to_bits());
        }
    }
}

#[test]
fn band_frequencies_follow_native_rounding() {
    for width in [0.0f32, 0.3, 0.5, 1.5, 11.025, 11.71875, 1e6, 3e9, 1e30, f32::INFINITY, f32::NAN, -2.0] {
        for n in [0u32, 1, 2, 3, 5, 7, 1000, 4095, 99999, u32::MAX] {
            let expected = f32::round(n as f32 * width) as u32;
            let freq = get_freq_for_band_n(Binary32::from_bits(width.to_bits()), n);
            assert_eq!(freq, expected, "{} times {}", n, width);
        }
    }
}

#[test]
fn later_bands_are_not_lower() {
    let bw = band_width(96000, 4096);
    for n in 1u32..4096 {
        assert!(get_freq_for_band_n(bw, n - 1) <= get_freq_for_band_n(bw, n));
    }
}
