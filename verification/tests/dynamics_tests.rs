use safelistn::dynamics::Compressor;
use safelistn::limiter::limit_sample;

// Fixed-point unit used throughout: 65536 stands for amplitude 1.0.
const SCALE: u64 = 65536;
// 0.2 in fixed point.
const THRESHOLD: u64 = 13107;
// 4.0 in fixed point.
const RATIO: u64 = 262144;

#[test]
fn try_new_accepts_valid_parameters() {
    let c = Compressor::try_new(THRESHOLD, RATIO, 52429, 58982, SCALE);
    assert!(c.is_some());
    let c = c.unwrap();
    assert_eq!(c.threshold, THRESHOLD);
    assert_eq!(c.ratio, RATIO);
    assert_eq!(c.attack_coeff, 52429);
    assert_eq!(c.release_coeff, 58982);
    assert_eq!(c.makeup_gain, SCALE);
    assert_eq!(c.envelope, 0);
}

#[test]
fn try_new_rejects_out_of_range_parameters() {
    // threshold must be strictly between 0 and 1
    assert!(Compressor::try_new(0, RATIO, 52429, 58982, SCALE).is_none());
    assert!(Compressor::try_new(SCALE, RATIO, 52429, 58982, SCALE).is_none());
    // ratio must be at least 1
    assert!(Compressor::try_new(THRESHOLD, SCALE - 1, 52429, 58982, SCALE).is_none());
    // coefficients must be strictly below 1
    assert!(Compressor::try_new(THRESHOLD, RATIO, SCALE, 58982, SCALE).is_none());
    assert!(Compressor::try_new(THRESHOLD, RATIO, 52429, SCALE, SCALE).is_none());
    // makeup gain must be positive and bounded
    assert!(Compressor::try_new(THRESHOLD, RATIO, 52429, 58982, 0).is_none());
    assert!(Compressor::try_new(THRESHOLD, RATIO, 52429, 58982, 1048577).is_none());
    // boundary values that are still admitted
    assert!(Compressor::try_new(SCALE - 1, SCALE, SCALE - 1, SCALE - 1, 1048576).is_some());
}

#[test]
fn subthreshold_signal_passes_through_at_unity() {
    // Unity makeup: a settled compressor leaves sub-threshold samples alone.
    let mut c = Compressor::new(THRESHOLD, RATIO, 52429, 58982, SCALE);
    for _ in 0..64 {
        let (l, r) = c.process(5000, -4000);
        assert_eq!(l, 5000);
        assert_eq!(r, -4000);
        assert!(c.envelope <= THRESHOLD);
    }
}

#[test]
fn full_scale_sample_is_compressed_to_steady_state_gain() {
    // Instant attack (coefficient 0): the envelope lands on the level at
    // once, so the very first sample sees the steady-state gain
    // (t + (A - t)/ratio)/A = (0.2 + 0.8/4)/1.0 = 0.4, rounded up to
    // 26215 gain units (the ideal 26214.25 never rounds to silence).
    let mut c = Compressor::new(THRESHOLD, RATIO, 0, 58982, SCALE);
    let (l, r) = c.process(65536, 0);
    assert_eq!(c.envelope, 65536);
    assert_eq!(l, 26215);
    assert_eq!(r, 0);
}

#[test]
fn makeup_gain_scales_the_output() {
    // Makeup 3.0 on a sub-threshold sample: output is exactly 3x input.
    let mut c = Compressor::new(THRESHOLD, RATIO, 52429, 58982, 3 * SCALE);
    let (l, r) = c.process(1000, -2000);
    assert_eq!(l, 3000);
    assert_eq!(r, -6000);
}

#[test]
fn stereo_link_applies_one_gain_to_both_channels() {
    // Same levels in either channel order must produce the same gain:
    // the detector looks only at max(|l|, |r|).
    let mut c1 = Compressor::new(THRESHOLD, RATIO, 0, 58982, SCALE);
    let mut c2 = Compressor::new(THRESHOLD, RATIO, 0, 58982, SCALE);
    let (l1, r1) = c1.process(65536, 32768);
    let (l2, r2) = c2.process(32768, 65536);
    assert_eq!(c1.envelope, c2.envelope);
    assert_eq!(l1, r2);
    assert_eq!(r1, l2);
    // Both channels carry the same relative reduction: the louder channel
    // sets the gain and the quieter one is scaled by exactly the same
    // factor (0.4 here), not by a gain of its own.
    assert_eq!(l1, 26215);
    assert_eq!(r1, 13107);
}

#[test]
fn envelope_rises_strictly_under_attack() {
    // A held step above threshold: the envelope climbs strictly toward
    // the level — upward rounding forbids a stall — without overshooting
    // it, and it reaches the level exactly.
    let mut c = Compressor::new(THRESHOLD, RATIO, 52429, 58982, SCALE);
    let level: i64 = 32768;
    for _ in 0..200 {
        let before = c.envelope;
        let (_l, _r) = c.process(level, 0);
        if before < level as u64 {
            assert!(c.envelope > before);
        } else {
            assert_eq!(c.envelope, level as u64);
        }
        assert!(c.envelope <= level as u64);
    }
    assert_eq!(c.envelope, 32768);
    // steady-state output: gain ceil(1181106176/32768) = 36045, so
    // 32768 * 36045 / 65536 = 18022
    let (l, _r) = c.process(level, 0);
    assert_eq!(l, 18022);
}

#[test]
fn envelope_decays_strictly_after_release() {
    let mut c = Compressor::new(THRESHOLD, RATIO, 0, 58982, SCALE);
    c.process(65536, 0);
    assert_eq!(c.envelope, 65536);
    let mut prev_env: u64 = c.envelope;
    for _ in 0..200 {
        if c.envelope == 0 {
            break;
        }
        c.process(0, 0);
        assert!(c.envelope < prev_env);
        prev_env = c.envelope;
    }
    // the envelope decays all the way to silence
    assert_eq!(c.envelope, 0);
}

#[test]
fn distinct_coefficients_give_distinct_decay_rates() {
    // Two followers dropped to silence from the same peak: the one with
    // the larger release coefficient must stay above the faster one.
    let mut slow = Compressor::new(THRESHOLD, RATIO, 0, 58982, SCALE);
    let mut fast = Compressor::new(THRESHOLD, RATIO, 0, 13107, SCALE);
    slow.update_envelope(65536);
    fast.update_envelope(65536);
    assert_eq!(slow.envelope, fast.envelope);
    for _ in 0..10 {
        slow.update_envelope(0);
        fast.update_envelope(0);
    }
    assert!(slow.envelope > fast.envelope);
}

#[test]
fn attack_is_faster_than_release_when_configured_so() {
    // Rising toward a level: the smaller (faster) coefficient gets closer.
    let mut fast = Compressor::new(THRESHOLD, RATIO, 13107, 58982, SCALE);
    let mut slow = Compressor::new(THRESHOLD, RATIO, 58982, 13107, SCALE);
    fast.update_envelope(65536);
    slow.update_envelope(65536);
    assert!(fast.envelope > slow.envelope);
}

#[test]
fn process_block_matches_per_sample_processing() {
    let mut blockwise = Compressor::new(THRESHOLD, RATIO, 52429, 58982, SCALE);
    let mut stepwise = Compressor::new(THRESHOLD, RATIO, 52429, 58982, SCALE);
    let left: Vec<i64> = vec![100, -40000, 65536, 0, 20000, -65536, 5];
    let right: Vec<i64> = vec![-200, 30000, -65536, 0, 2, 65536, -5];
    let (out_l, out_r) = blockwise.process_block(&left, &right);
    assert_eq!(out_l.len(), left.len());
    assert_eq!(out_r.len(), right.len());
    for i in 0..left.len() {
        let (l, r) = stepwise.process(left[i], right[i]);
        assert_eq!(out_l[i], l);
        assert_eq!(out_r[i], r);
    }
    assert_eq!(blockwise.envelope, stepwise.envelope);
}

#[test]
fn process_block_accepts_an_empty_block() {
    let mut c = Compressor::new(THRESHOLD, RATIO, 52429, 58982, SCALE);
    let (out_l, out_r) = c.process_block(&Vec::new(), &Vec::new());
    assert_eq!(out_l.len(), 0);
    assert_eq!(out_r.len(), 0);
    assert_eq!(c.envelope, 0);
}

#[test]
fn extreme_samples_with_maximum_makeup_stay_finite() {
    // Largest admitted magnitude (256x full scale) with the largest
    // makeup (16x) and instant attack. envelope = 16777216; the static
    // gain is the ideal ratio 16422.4 rounded up to 16423; with 16x
    // makeup the total gain is 262768, so |out| =
    // 16777216 * 262768 / 65536 = 67268608.
    let mut c = Compressor::new(THRESHOLD, RATIO, 0, 58982, 1048576);
    let (l, r) = c.process(16777216, -16777216);
    assert_eq!(c.envelope, 16777216);
    assert_eq!(l, 67268608);
    assert_eq!(r, -67268608);
}

#[test]
fn limiter_returns_in_range_samples_unchanged() {
    assert_eq!(limit_sample(5000, THRESHOLD), 5000);
    assert_eq!(limit_sample(-5000, THRESHOLD), -5000);
    assert_eq!(limit_sample(0, THRESHOLD), 0);
    assert_eq!(limit_sample(13107, THRESHOLD), 13107);
    assert_eq!(limit_sample(-13107, THRESHOLD), -13107);
}

#[test]
fn limiter_folds_excess_by_half_symmetrically() {
    // 20000 exceeds 13107 by 6893; half of the excess is 3446 (floored).
    assert_eq!(limit_sample(20000, THRESHOLD), 16553);
    assert_eq!(limit_sample(-20000, THRESHOLD), -16553);
    assert_eq!(limit_sample(65536, THRESHOLD), 13107 + (65536 - 13107) / 2);
    assert_eq!(limit_sample(-65536, THRESHOLD), -(13107 + (65536 - 13107) / 2));
}

#[test]
fn limiter_is_idempotent_below_threshold() {
    let once = limit_sample(9000, THRESHOLD);
    assert_eq!(once, 9000);
    assert_eq!(limit_sample(once, THRESHOLD), once);
}

#[test]
fn gain_is_never_zero_even_at_extreme_settings() {
    // Tiny threshold, enormous ratio, large envelope: the ideal gain is
    // far below one unit, but the computed gain rounds up and never
    // silences the signal.
    let mut c = Compressor::new(1, u64::MAX, 0, 58982, SCALE);
    c.update_envelope(16777216);
    assert_eq!(c.envelope, 16777216);
    let g = c.calculate_gain();
    assert!(g >= 1);
    assert!(g <= c.makeup_gain);
}

#[test]
fn gain_tracks_the_ideal_ratio_within_one_unit() {
    // As the envelope rises above the threshold the applied gain never
    // climbs by more than one quantization unit between steps.
    let mut c = Compressor::new(THRESHOLD, RATIO, 52429, 58982, SCALE);
    let mut prev_gain = c.calculate_gain();
    for _ in 0..100 {
        c.process(65536, 0);
        let g = c.calculate_gain();
        assert!(g <= prev_gain + 1);
        prev_gain = g;
    }
}
