use mopidy_sound_visualizer::binary32::Binary32;
use mopidy_sound_visualizer::log_partition::{
    create_freq_arr, create_freq_tuples, create_tuples, f, freq_in_range,
    get_tuple_containing_freq, get_tuple_index_containing_freq,
};

fn binary(x: f32) -> Binary32 {
    Binary32::from_bits(x.to_bits())
}

#[test]
fn test_f() {
    assert_eq!(f(binary(0.0)), 20);
    assert_eq!(f(binary(0.5)), 632);
    assert_eq!(f(binary(1.0)), 20000);
}

#[test]
fn test_create_freq_arr() {
    let arr: Vec<u32> = vec![20, 200, 2000, 20000];

    assert_eq!(create_freq_arr(4), arr);
}

#[test]
fn test_create_freq_tuples() {
    let tuples: Vec<(u32, u32)> = vec![(20, 112), (112, 632), (632, 3557), (3557, 20000)];

    assert_eq!(create_freq_tuples(4), tuples);
}

#[test]
fn f_below_the_partition() {
    assert_eq!(f(binary(-0.0)), 20);
    assert_eq!(f(binary(-0.25)), 4);
    assert_eq!(f(binary(-0.5)), 1);
    assert_eq!(f(binary(-0.53)), 1);
    assert_eq!(f(binary(-0.54)), 0);
    assert_eq!(f(binary(-1.0)), 0);
    assert_eq!(f(binary(-7.5)), 0);
    assert_eq!(f(binary(f32::NEG_INFINITY)), 0);
}

#[test]
fn f_follows_the_native_power() {
    for m in 1u32..400 {
        for n in 0..=m {
            let t = n as f32 / m as f32;
            let expected = f32::round(20.0 * f32::powf(20000.0 / 20.0, t)) as u32;
            assert_eq!(f(binary(t)), expected, "{} of {}", n, m);
        }
    }
}

#[test]
fn f_follows_the_native_power_below_zero() {
    for n in 0u32..2000 {
        let t = -(n as f32) / 1000.0;
        let expected = f32::round(20.0 * f32::powf(20000.0 / 20.0, t)) as u32;
        assert_eq!(f(binary(t)), expected, "{}", t);
    }
}

#[test]
fn boundaries_where_the_fraction_is_inexact() {
    assert_eq!(create_freq_arr(47)[39], 6990);
    assert_eq!(create_freq_arr(120)[116], 16804);
    assert_eq!(create_freq_arr(222)[160], 2972);
}

#[test]
fn partitions_run_from_lowest_to_highest() {
    for len in [1u32, 2, 3, 7, 20, 100, 1000] {
        let tuples = create_freq_tuples(len);
        assert_eq!(tuples.len(), len as usize);
        assert_eq!(tuples[0].0, 20);
        assert_eq!(tuples[len as usize - 1].1, 20000);
        for i in 0..tuples.len() {
            assert!(tuples[i].0 <= tuples[i].1);
            if i > 0 {
                assert_eq!(tuples[i - 1].1, tuples[i].0);
            }
        }
    }
}

#[test]
fn partitions_cover_the_audible_frequencies() {
    let tuples = create_freq_tuples(13);
    assert_eq!(get_tuple_containing_freq(&tuples, 19), None);
    assert_eq!(get_tuple_containing_freq(&tuples, 20001), None);
    for freq in 20u32..=20000 {
        let i = get_tuple_index_containing_freq(&tuples, freq).unwrap();
        assert_eq!(get_tuple_containing_freq(&tuples, freq), Some(tuples[i]));
        assert!(freq_in_range(tuples[i], freq));
    }
}

#[test]
fn a_shared_end_is_found_in_the_first_range() {
    let tuples = vec![(20, 112), (112, 632), (112, 700)];
    assert_eq!(get_tuple_index_containing_freq(&tuples, 112), Some(0));
    assert_eq!(get_tuple_containing_freq(&tuples, 112), Some((20, 112)));
    assert_eq!(get_tuple_index_containing_freq(&tuples, 113), Some(1));
    assert_eq!(get_tuple_index_containing_freq(&tuples, 650), Some(2));
    assert_eq!(get_tuple_index_containing_freq(&tuples, 701), None);
    assert_eq!(get_tuple_containing_freq(&[], 5), None);
}

#[test]
fn range_ends_are_included() {
    assert!(freq_in_range((20, 30), 20));
    assert!(freq_in_range((20, 30), 30));
    assert!(!freq_in_range((20, 30), 19));
    assert!(!freq_in_range((20, 30), 31));
    assert!(!freq_in_range((30, 20), 25));
}

#[test]
fn tuples_of_short_lists() {
    assert_eq!(create_tuples(vec![]), vec![]);
    assert_eq!(create_tuples(vec![3]), vec![]);
    assert_eq!(create_tuples(vec![3, 1]), vec![(3, 1)]);
    assert_eq!(create_tuples(vec![3, 1, 4]), vec![(3, 1), (1, 4)]);
}
