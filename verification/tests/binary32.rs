use mopidy_sound_visualizer::binary32::Binary32;

fn binary(x: f32) -> Binary32 {
    Binary32::from_bits(x.to_bits())
}

fn assert_same(ours: Binary32, native: f32, what: &str) {
    if native.is_nan() {
        assert!(f32::from_bits(ours.to_bits()).is_nan(), "{}", what);
    } else {
        assert_eq!(ours.to_bits(), native.to_bits(), "{}", what);
    }
}

fn samples() -> Vec<f32> {
    let mut list = vec![
        0.0,
        -0.0,
        1.0,
        -1.0,
        0.5,
        1.5,
        -2.5,
        3.0,
        0.1,
        1e-3,
        20000.0,
        16777215.0,
        16777216.0,
        16777217.0,
        f32::MAX,
        f32::MIN,
        f32::MIN_POSITIVE,
        f32::EPSILON,
        1.0 + f32::EPSILON,
        f32::INFINITY,
        f32::NEG_INFINITY,
        f32::NAN,
        f32::from_bits(1),
        f32::from_bits(2),
        f32::from_bits(3),
        f32::from_bits(0x007f_ffff),
        f32::from_bits(0x8000_0001),
        f32::from_bits(0x7f7f_fffe),
        f32::from_bits(0x0080_0001),
    ];
    let mut state: u32 = 0x2545_f491;
    for _ in 0..150 {
        state = state.wrapping_mul(1664525).wrapping_add(1013904223);
        list.push(f32::from_bits(state));
        let near = 0x3f00_0000 + (state >> 7);
        list.push(f32::from_bits(near));
    }
    list
}

#[test]
fn sums_are_those_of_the_format() {
    for a in samples() {
        for b in samples() {
            assert_same(binary(a).plus(binary(b)), a + b, &format!("{:e} + {:e}", a, b));
        }
    }
}

#[test]
fn differences_are_those_of_the_format() {
    for a in samples() {
        for b in samples() {
            assert_same(binary(a).minus(binary(b)), a - b, &format!("{:e} - {:e}", a, b));
        }
    }
}

#[test]
fn products_are_those_of_the_format() {
    for a in samples() {
        for b in samples() {
            assert_same(binary(a).times(binary(b)), a * b, &format!("{:e} * {:e}", a, b));
        }
    }
}

#[test]
fn quotients_are_those_of_the_format() {
    for a in samples() {
        for b in samples() {
            assert_same(binary(a).over(binary(b)), a / b, &format!("{:e} / {:e}", a, b));
        }
    }
}

#[test]
fn comparisons_are_those_of_the_format() {
    for a in samples() {
        for b in samples() {
            assert_eq!(binary(a).less_than(binary(b)), a < b);
            assert_eq!(binary(a).at_most(binary(b)), a <= b);
        }
    }
}

#[test]
fn negation_turns_the_sign() {
    for a in samples() {
        assert_eq!(binary(a).negate().to_bits(), (-a).to_bits());
        assert_eq!(binary(a).negate().negate().to_bits(), a.to_bits());
    }
}

#[test]
fn counts_are_rounded_and_bounded() {
    for a in samples() {
        assert_eq!(binary(a).to_count(), a.round() as u32, "{:e}", a);
    }
    for a in [0.49999997f32, 0.5, 1.5, 2.5, 2.4999998, 8388607.5, 4294967000.0, 4294967296.0] {
        assert_eq!(binary(a).to_count(), a.round() as u32, "{:e}", a);
    }
    assert_eq!(binary(2.5).to_count(), 3);
    assert_eq!(binary(-2.5).to_count(), 0);
    assert_eq!(binary(f32::INFINITY).to_count(), u32::MAX);
}

#[test]
fn whole_numbers_are_rounded_to_even() {
    for n in [0u64, 1, 2, 3, 100, 16777215, 16777216, 16777217, 16777219, 33554434, u32::MAX as u64, u64::MAX, (1 << 40) + 1, (1 << 63) + (1 << 39), (3 << 39) + 5] {
        assert_eq!(Binary32::from_whole(n).to_bits(), (n as f32).to_bits());
    }
    assert_eq!(Binary32::from_whole(16777217).to_bits(), 16777216f32.to_bits());
    assert_eq!(Binary32::from_whole(16777219).to_bits(), 16777220f32.to_bits());
}
