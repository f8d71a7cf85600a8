use mopidy_sound_visualizer::binary32::Binary32;
use mopidy_sound_visualizer::power::thousand_power;

fn power(t: f32) -> f32 {
    f32::from_bits(thousand_power(Binary32::from_bits(t.to_bits())).to_bits())
}

#[test]
fn exact_powers_are_exact() {
    assert_eq!(power(0.0), 1.0);
    assert_eq!(power(-0.0), 1.0);
    assert_eq!(power(1.0), 1000.0);
    assert_eq!(power(-1.0), 0.001);
    assert_eq!(power(f32::from_bits(1)), 1.0);
}

#[test]
fn powers_are_within_one_step_of_the_native_ones() {
    for n in 0..=4000 {
        let t = (n as f32 - 2000.0) / 2000.0;
        let ours = power(t).to_bits() as i64;
        let native = f32::powf(1000.0, t).to_bits() as i64;
        assert!((ours - native).abs() <= 1, "{}", t);
    }
}

#[test]
fn powers_grow_with_the_exponent() {
    for n in 1..=4000 {
        let t = n as f32 / 4000.0;
        let s = (n - 1) as f32 / 4000.0;
        assert!(power(s) <= power(t));
    }
}

#[test]
fn powers_are_close_to_exact_ones() {
    for n in 0..=64 {
        let t = n as f32 / 64.0;
        let exact = f64::powf(1000.0, t as f64);
        let p = power(t) as f64;
        assert!((p - exact).abs() <= exact / 8388608.0, "{}", t);
    }
}
