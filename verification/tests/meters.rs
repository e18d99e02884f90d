use splitstream::float::{to_nearest, Float32};
use splitstream::meter::{MeterLevel, PeakMeter};
use splitstream::ramp::{Arithmetic, Coefficients, Memory};

fn number(value: f32) -> Float32 {
    Float32::from_bits(value.to_bits())
}

fn value(number: Float32) -> f32 {
    f32::from_bits(number.to_bits())
}

/// The part of the arithmetic that meters ask for.
struct Numbers;

impl Arithmetic for Numbers {
    fn glide(&self, current: Float32, target: Float32, coeff: Float32) -> Float32 {
        number(value(target) + value(coeff) * (value(current) - value(target)))
    }

    fn settling(&self, seconds: Float32, sample_rate: u32) -> Float32 {
        number((-1.0 / (value(seconds) * sample_rate as f32)).exp())
    }

    fn decay(&self, level: Float32, coeff: Float32, frames: usize) -> Float32 {
        number((0..frames).fold(value(level), |left, _| value(coeff) * left))
    }

    fn plus(&self, _: Float32, _: Float32) -> Float32 {
        panic!("a meter sums nothing")
    }

    fn minus(&self, _: Float32, _: Float32) -> Float32 {
        panic!("a meter sums nothing")
    }

    fn times(&self, _: Float32, _: Float32) -> Float32 {
        panic!("a meter has no gain")
    }

    fn over(&self, _: Float32, _: Float32) -> Float32 {
        panic!("a meter divides nothing")
    }

    fn blend(&self, _: Float32, _: Float32, _: Float32) -> Float32 {
        panic!("a meter mixes nothing")
    }

    fn linear(&self, _: Float32) -> Float32 {
        panic!("a meter is linear")
    }

    fn decibels(&self, _: Float32) -> Float32 {
        panic!("a meter is linear")
    }

    fn peaking(&self, _: Float32, _: Float32, _: Float32, _: u32) -> Coefficients {
        panic!("a meter has no filter")
    }

    fn filter(&self, _: Coefficients, _: Memory, _: Float32) -> (Memory, Float32) {
        panic!("a meter has no filter")
    }
}

struct Meter {
    meter: PeakMeter,
}

impl Meter {
    fn new(sample_rate: u32) -> Meter {
        Meter { meter: PeakMeter::new(&Numbers, sample_rate) }
    }

    fn observe(&mut self, block: &[f32], channels: usize) {
        let block: Vec<Float32> = block.iter().map(|s| number(*s)).collect();
        self.meter.observe(&Numbers, &block, channels);
    }

    fn observe_silence(&mut self, frames: usize) {
        self.meter.observe_silence(&Numbers, frames);
    }

    fn sample(&self) -> (f32, bool) {
        let level = self.meter.sample();
        (value(level.peak), level.clipped)
    }

    fn reset(&mut self) {
        self.meter.reset();
    }
}

const RATE: u32 = 48_000;

/// A `frames`-long mono block of constant `value`.
fn mono(value: f32, frames: usize) -> Vec<f32> {
    vec![value; frames]
}

#[test]
fn a_fresh_meter_reads_silent() {
    let meter = Meter::new(RATE);
    assert_eq!(meter.sample(), (0.0, false));
}

#[test]
fn observing_silence_stays_at_the_floor() {
    let mut meter = Meter::new(RATE);
    meter.observe(&mono(0.0, 256), 1);
    assert_eq!(meter.sample().0, 0.0);
}

#[test]
fn attack_jumps_straight_to_the_block_peak() {
    let mut meter = Meter::new(RATE);
    meter.observe(&mono(0.5, 128), 1);
    assert_eq!(meter.sample().0, 0.5);
}

#[test]
fn the_block_peak_is_the_max_across_channels() {
    let mut meter = Meter::new(RATE);
    // Interleaved stereo: quiet left, loud right.
    let block = vec![0.1, 0.8, 0.1, 0.8];
    meter.observe(&block, 2);
    assert_eq!(meter.sample().0, 0.8);
}

#[test]
fn magnitude_uses_absolute_value_of_negative_samples() {
    let mut meter = Meter::new(RATE);
    meter.observe(&mono(-0.7, 64), 1);
    assert_eq!(meter.sample().0, 0.7);
}

#[test]
fn release_decays_the_envelope_after_the_signal_stops() {
    let mut meter = Meter::new(RATE);
    meter.observe(&mono(0.5, 64), 1);
    assert_eq!(meter.sample().0, 0.5);

    meter.observe(&mono(0.0, 4_800), 1); // ~100 ms of silence
    let decayed = meter.sample().0;
    assert!(decayed < 0.5, "envelope should fall, got {decayed}");
    assert!(decayed > 0.0, "should not have fully decayed yet, got {decayed}");
}

#[test]
fn a_full_scale_sample_lights_the_clip_indicator() {
    let mut meter = Meter::new(RATE);
    meter.observe(&mono(1.0, 16), 1);
    assert!(meter.sample().1);
}

#[test]
fn the_clip_indicator_holds_briefly_then_clears() {
    let mut meter = Meter::new(RATE);
    meter.observe(&mono(1.0, 16), 1);
    assert!(meter.sample().1);

    // Still lit a short while after (well inside the 1 s hold).
    meter.observe(&mono(0.0, 4_800), 1);
    assert!(meter.sample().1);

    // Past the full hold window it clears.
    meter.observe(&mono(0.0, RATE as usize + 1), 1);
    assert!(!meter.sample().1);
}

#[test]
fn observe_silence_decays_a_frozen_bar() {
    let mut meter = Meter::new(RATE);
    meter.observe(&mono(0.5, 64), 1);
    assert_eq!(meter.sample().0, 0.5);

    meter.observe_silence(4_800); // ~100 ms idle tick(s)
    let decayed = meter.sample().0;
    assert!(decayed < 0.5 && decayed > 0.0, "should decay toward floor, got {decayed}");
}

#[test]
fn observe_silence_matches_observing_a_zero_buffer() {
    // The idle closed-form and feeding real silence must agree, so which
    // path a tick takes never shows a discontinuity in the bar.
    let mut via_silence = Meter::new(RATE);
    let mut via_buffer = Meter::new(RATE);
    via_silence.observe(&mono(0.7, 32), 1);
    via_buffer.observe(&mono(0.7, 32), 1);

    via_silence.observe_silence(480);
    via_buffer.observe(&mono(0.0, 480), 1);

    let a = via_silence.sample().0;
    let b = via_buffer.sample().0;
    assert!((a - b).abs() < 1e-6, "silence paths diverged: {a} vs {b}");
}

#[test]
fn observe_silence_clears_a_held_clip() {
    let mut meter = Meter::new(RATE);
    meter.observe(&mono(1.0, 8), 1);
    assert!(meter.sample().1);
    meter.observe_silence(RATE as usize + 1);
    assert!(!meter.sample().1);
}

#[test]
fn a_long_idle_stretch_snaps_the_envelope_to_exactly_zero() {
    // An exponential release only *approaches* zero, so without the
    // flush-to-zero guard the envelope would sit in subnormal-float range
    // forever, doing subnormal arithmetic on the RT thread.
    let mut meter = Meter::new(RATE);
    meter.observe(&mono(0.5, 64), 1);
    meter.observe_silence(RATE as usize * 10); // 10 s idle
    assert_eq!(meter.sample().0, 0.0);
}

#[test]
fn a_long_run_of_silent_blocks_snaps_the_envelope_to_exactly_zero() {
    // Same guarantee down the block-fed path — a source that keeps
    // delivering zero-filled buffers rather than going idle.
    let mut meter = Meter::new(RATE);
    meter.observe(&mono(0.5, 64), 1);
    let silence = mono(0.0, 480);
    for _ in 0..1_000 {
        meter.observe(&silence, 1);
    }
    assert_eq!(meter.sample().0, 0.0);
}

#[test]
fn reset_returns_to_silent() {
    let mut meter = Meter::new(RATE);
    meter.observe(&mono(1.0, 64), 1);
    meter.reset();
    assert_eq!(meter.sample(), (0.0, false));
}

#[test]
fn a_zero_channel_block_is_ignored_not_a_panic() {
    let mut meter = Meter::new(RATE);
    meter.observe(&[0.5, 0.5], 0);
    assert_eq!(meter.sample(), (0.0, false));
}

#[test]
fn a_silent_reading_is_zero() {
    assert_eq!(MeterLevel::silent(), MeterLevel { peak: number(0.0), clipped: false });
}

#[test]
fn a_clip_is_held_for_a_second_of_frames_exactly() {
    let mut meter = Meter::new(RATE);
    meter.observe(&mono(1.0, 1), 1);
    meter.observe_silence(RATE as usize - 1);
    assert!(meter.sample().1);
    meter.observe_silence(1);
    assert!(!meter.sample().1);
}

#[test]
fn a_partial_frame_is_left_out() {
    let mut meter = Meter::new(RATE);
    meter.observe(&[0.25, 0.5, 0.75], 2);
    assert_eq!(meter.sample().0, 0.5);
}

#[test]
fn the_hold_is_the_nearest_number_that_a_float_holds() {
    for rate in [0, 1, 48_000, 0x0100_0000, 0x0100_0001, 0x0100_0003, 0xffff_ff7f, 0xffff_ffff] {
        assert_eq!(to_nearest(rate), rate as f32 as u64, "{rate}");
        assert_eq!(PeakMeter::new(&Numbers, rate).clip_hold_frames, rate as f32 as u32, "{rate}");
    }
}

#[test]
fn float_comparisons_are_those_of_the_machine() {
    let values = [0.0, -0.0, 1.0, -1.0, 0.5, f32::MAX, f32::MIN, f32::INFINITY, f32::NEG_INFINITY, f32::NAN];
    for a in values {
        assert_eq!(number(a).is_nan(), a.is_nan());
        assert_eq!(number(a).is_finite(), a.is_finite());
        assert_eq!(number(a).is_positive(), a > 0.0);
        assert_eq!(number(a).is_non_negative(), a >= 0.0);
        assert_eq!(number(a).abs().to_bits(), a.abs().to_bits());
        for b in values {
            assert_eq!(number(a).is_at_most(number(b)), a <= b, "{a} {b}");
            assert_eq!(number(a).is_less(number(b)), a < b, "{a} {b}");
            assert_eq!(number(a) == number(b), a == b, "{a} {b}");
        }
    }
}

#[test]
fn a_float_is_held_against_half_a_number() {
    for n in [0u32, 1, 2, 44_100, 48_000, 192_000, 0x0100_0001] {
        let half = n as f32 / 2.0;
        for v in [half, half * 1.5, half * 0.5, 1.0e-40, f32::MAX].into_iter().filter(|v| *v > 0.0) {
            assert_eq!(number(v).is_below_half(n), v < n as f32 / 2.0, "{v} {n}");
        }
    }
}
