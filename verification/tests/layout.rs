use spectral_morph::blend::{crossfade, ramp_weight, Weight, RAMP_RATE};
use spectral_morph::layout::{block_fits, segment_starts, DEFAULT_WINDOW_SIZE, OFFSET};
use spectral_morph::morph::{half_width, phase_source, spread_band, PhaseSource, SPREAD_SCALE};

fn mix(w: Weight, a: i64, b: i64) -> i64 {
    (a * (w.den - w.num) as i64 + b * w.num as i64) / w.den as i64
}

#[test]
fn constants_have_their_values() {
    assert_eq!(OFFSET, 400);
    assert_eq!(SPREAD_SCALE, 50);
    assert_eq!(RAMP_RATE, 8);
    assert_eq!(DEFAULT_WINDOW_SIZE, 1024);
}

#[test]
fn segment_starts_exact() {
    assert_eq!(segment_starts(1024, 128), Some((368, 496)));
    assert_eq!(segment_starts(2048, 128), Some((1392, 1520)));
    assert_eq!(segment_starts(1024, 312), Some((0, 312)));
    assert_eq!(segment_starts(1024, 0), Some((624, 624)));
    assert_eq!(segment_starts(400, 0), Some((0, 0)));
}

#[test]
fn segment_starts_refuses_what_does_not_fit() {
    assert_eq!(segment_starts(1024, 313), None);
    assert_eq!(segment_starts(399, 0), None);
    assert_eq!(segment_starts(0, 0), None);
    assert_eq!(segment_starts(1024, usize::MAX), None);
    assert!(block_fits(1024, 312));
    assert!(!block_fits(1024, 313));
    assert!(!block_fits(1024, 1024));
}

#[test]
fn half_width_is_one_more() {
    assert_eq!(half_width(0), 1);
    assert_eq!(half_width(25), 26);
    assert_eq!(half_width(50), 51);
}

#[test]
fn spread_band_inside() {
    assert_eq!(spread_band(100, 1, 1024), (99, 101));
    assert_eq!(spread_band(100, 51, 1024), (49, 151));
}

#[test]
fn spread_band_clipped_at_both_ends() {
    assert_eq!(spread_band(0, 1, 1024), (0, 1));
    assert_eq!(spread_band(3, 51, 1024), (0, 54));
    assert_eq!(spread_band(1023, 1, 1024), (1022, 1023));
    assert_eq!(spread_band(1022, 1, 1024), (1021, 1023));
    assert_eq!(spread_band(1000, 51, 1024), (949, 1023));
    assert_eq!(spread_band(5, usize::MAX, 10), (0, 9));
    assert_eq!(spread_band(0, 1, 1), (0, 0));
}

#[test]
fn ramp_weight_exact() {
    assert_eq!(ramp_weight(0, 128), Weight { num: 0, den: 128 });
    assert_eq!(ramp_weight(1, 128), Weight { num: 8, den: 128 });
    assert_eq!(ramp_weight(15, 128), Weight { num: 120, den: 128 });
    assert_eq!(ramp_weight(16, 128), Weight { num: 128, den: 128 });
    assert_eq!(ramp_weight(127, 128), Weight { num: 128, den: 128 });
    assert_eq!(ramp_weight(12, 100), Weight { num: 96, den: 100 });
    assert_eq!(ramp_weight(13, 100), Weight { num: 100, den: 100 });
    assert_eq!(ramp_weight(0, 1), Weight { num: 0, den: 1 });
    assert_eq!(ramp_weight(usize::MAX - 1, usize::MAX), Weight { num: usize::MAX, den: usize::MAX });
}

#[test]
fn crossfade_boundary() {
    let previous_tail: Vec<i64> = (0..128).map(|i| 1000 + i).collect();
    let current: Vec<i64> = (0..128).map(|i| -5000 - 3 * i).collect();
    let out = crossfade(&previous_tail, &current, &mix);
    assert_eq!(out.len(), 128);
    assert_eq!(out[0], previous_tail[0]);
    assert_eq!(out[128 / 8], current[128 / 8]);
    for i in 16..128 {
        assert_eq!(out[i], current[i]);
    }
    assert_eq!(out[8], (previous_tail[8] * 64 + current[8] * 64) / 128);
    assert_eq!(out[1], (previous_tail[1] * 120 + current[1] * 8) / 128);
}

#[test]
fn crossfade_asks_blend_only_inside_the_ramp() {
    let previous_tail = vec![7i64; 24];
    let current = vec![9i64; 24];
    let out = crossfade(&previous_tail, &current, &|w: Weight, _a: i64, _b: i64| {
        assert!(0 < w.num && w.num < w.den);
        assert_eq!(w.den, 24);
        -(w.num as i64)
    });
    assert_eq!(out[0], 7);
    assert_eq!(out[1], -8);
    assert_eq!(out[2], -16);
    assert_eq!(out[3], 9);
    assert_eq!(out[23], 9);
}

#[test]
fn crossfade_of_nothing_is_nothing() {
    let out = crossfade(&[], &[], &mix);
    assert_eq!(out, Vec::<i64>::new());
}

#[test]
fn phase_comes_from_the_channel_that_has_one() {
    assert_eq!(phase_source(true, false), PhaseSource::B);
    assert_eq!(phase_source(false, true), PhaseSource::A);
    assert_eq!(phase_source(true, true), PhaseSource::B);
    assert_eq!(phase_source(false, false), PhaseSource::Blend);
}
