use splitstream::float::{Float32, Float64};
use splitstream::levels::{
    advance_hold, fader_db_to_gain, format_fader_db, gain_to_fader_db, gain_to_position, meter_fraction,
    moved_to, peak_db_label, position_to_gain, step_gain, FADER_MAX_DB_BITS, FADER_MIN_DB_BITS,
};
use splitstream::action::{VolumeEvent, VOLUME_STEP_DB_BITS, VOLUME_STEP_DOWN_DB_BITS};
use splitstream::command::MixerCommand;
use splitstream::dispatcher::{Dispatcher, Effect};
use splitstream::meter::MeterLevel;
use splitstream::model::{AppConfig, ConfigSnapshot};
use splitstream::ramp::{Arithmetic, Coefficients, Memory};
use splitstream::sample::Gain;
use splitstream::shell::VolumeTarget;

fn value(number: Float32) -> f32 {
    f32::from_bits(number.to_bits())
}

fn number(value: f32) -> Float32 {
    Float32::from_bits(value.to_bits())
}

fn db_to_linear(db: f32) -> f32 {
    10f32.powf(db / 20.0)
}

/// The arithmetic of IEEE 754.
struct Ieee;

impl Arithmetic for Ieee {
    fn glide(&self, current: Float32, target: Float32, coeff: Float32) -> Float32 {
        number(value(target) + value(coeff) * (value(current) - value(target)))
    }

    fn plus(&self, a: Float32, b: Float32) -> Float32 {
        number(value(a) + value(b))
    }

    fn minus(&self, a: Float32, b: Float32) -> Float32 {
        number(value(a) - value(b))
    }

    fn times(&self, a: Float32, b: Float32) -> Float32 {
        number(value(a) * value(b))
    }

    fn over(&self, a: Float32, b: Float32) -> Float32 {
        number(value(a) / value(b))
    }

    fn blend(&self, dry: Float32, wet: Float32, mix: Float32) -> Float32 {
        number(value(dry) + value(mix) * (value(wet) - value(dry)))
    }

    fn settling(&self, seconds: Float32, sample_rate: u32) -> Float32 {
        number((-1.0 / (value(seconds) * sample_rate as f32)).exp())
    }

    fn decay(&self, level: Float32, coeff: Float32, frames: usize) -> Float32 {
        number(value(level) * value(coeff).powi(frames as i32))
    }

    fn linear(&self, decibels: Float32) -> Float32 {
        number(db_to_linear(value(decibels)))
    }

    fn decibels(&self, linear: Float32) -> Float32 {
        number(20.0 * value(linear).log10())
    }

    /// From the audio equaliser cookbook, in double precision.
    fn peaking(&self, freq_hz: Float32, gain_db: Float32, q: Float32, sample_rate: u32) -> Coefficients {
        let w0 = 2.0 * std::f64::consts::PI * value(freq_hz) as f64 / sample_rate as f64;
        let alpha = w0.sin() / (2.0 * value(q) as f64);
        let a = 10f64.powf(value(gain_db) as f64 / 40.0);
        let a0 = 1.0 + alpha / a;
        Coefficients {
            b0: number(((1.0 + alpha * a) / a0) as f32),
            b1: number((-2.0 * w0.cos() / a0) as f32),
            b2: number(((1.0 - alpha * a) / a0) as f32),
            a1: number((-2.0 * w0.cos() / a0) as f32),
            a2: number(((1.0 - alpha / a) / a0) as f32),
        }
    }

    /// Transposed direct form II.
    fn filter(&self, c: Coefficients, memory: Memory, x: Float32) -> (Memory, Float32) {
        let x = value(x);
        let y = value(c.b0) * x + value(memory.z1);
        let z1 = value(c.b1) * x - value(c.a1) * y + value(memory.z2);
        let z2 = value(c.b2) * x - value(c.a2) * y;
        (Memory { z1: number(z1), z2: number(z2) }, number(y))
    }
}

const FADER_MIN_DB: f32 = f32::from_bits(FADER_MIN_DB_BITS);
const FADER_MAX_DB: f32 = f32::from_bits(FADER_MAX_DB_BITS);
const VOLUME_STEP_DB: f32 = f32::from_bits(VOLUME_STEP_DB_BITS);

fn fraction_of(peak: f32) -> f32 {
    value(meter_fraction(&Ieee, number(peak)))
}

fn held(previous: f32, fraction: f32, dt: f32) -> f32 {
    value(advance_hold(&Ieee, number(previous), number(fraction), number(dt)))
}

fn gain_at(db: f32) -> Gain {
    fader_db_to_gain(&Ieee, number(db))
}

fn db_of(gain: Gain) -> f32 {
    value(gain_to_fader_db(&Ieee, gain))
}

fn stepped_by(gain: Gain, delta_db: f32) -> Gain {
    step_gain(&Ieee, gain, number(delta_db))
}

fn box_text(db: f64) -> String {
    format_fader_db(Float64::from_bits(db.to_bits()), &format!("{db:.1}"))
}

#[test]
fn meter_fraction_maps_full_scale_to_a_full_bar() {
    assert!((fraction_of(1.0) - 1.0).abs() < 1e-6);
}

#[test]
fn meter_fraction_is_empty_at_and_below_the_floor() {
    assert_eq!(fraction_of(0.0), 0.0);
    // -60 dBFS = 0.001 linear, exactly the floor: still empty.
    assert!(fraction_of(0.001) < 1e-3);
}

#[test]
fn meter_fraction_puts_minus_thirty_db_near_the_middle() {
    let frac = fraction_of(10f32.powf(-30.0 / 20.0));
    assert!((frac - 0.5).abs() < 1e-3, "got {frac}");
}

#[test]
fn advance_hold_snaps_up_to_a_new_peak() {
    assert_eq!(held(0.2, 0.8, 0.016), 0.8);
}

#[test]
fn advance_hold_decays_toward_the_floor_when_below() {
    let next = held(0.8, 0.1, 0.1); // 100 ms
    assert!(next < 0.8 && next > 0.1, "got {next}");
}

#[test]
fn unity_gain_is_zero_db() {
    assert!((db_of(Gain::unity()) - 0.0).abs() < 1e-3);
}

#[test]
fn the_bottom_of_travel_maps_to_true_silence() {
    assert_eq!(gain_at(FADER_MIN_DB), Gain::silent());
    assert_eq!(gain_at(FADER_MIN_DB - 10.0), Gain::silent());
}

#[test]
fn boost_maps_above_zero_db() {
    let gain = gain_at(FADER_MAX_DB);
    assert!((value(gain.value()) - 1.995).abs() < 1e-2, "got {}", value(gain.value()));
}

#[test]
fn gain_round_trips_through_the_fader_mapping() {
    for db in [-40.0f32, -6.0, -0.5, 3.0, 6.0] {
        let gain = gain_at(db);
        let back = db_of(gain);
        assert!((back - db).abs() < 1e-2, "db {db} -> gain {} -> {back}", value(gain.value()));
    }
}

#[test]
fn silence_formats_as_minus_inf() {
    assert_eq!(box_text(FADER_MIN_DB as f64), "-inf dB");
    assert_eq!(box_text((FADER_MIN_DB - 5.0) as f64), "-inf dB");
}

#[test]
fn format_fader_db_shows_one_decimal_and_signs_boost() {
    assert_eq!(box_text(-6.0), "-6.0 dB");
    assert_eq!(box_text(0.0), "0.0 dB");
    assert_eq!(box_text(3.5), "+3.5 dB");
}

#[test]
fn gain_to_fader_db_does_not_clamp_an_out_of_range_existing_value() {
    let over_range = Gain::new(number(4.0)).unwrap();
    let db = db_of(over_range);
    assert!(db > FADER_MAX_DB, "expected an unclamped value above {FADER_MAX_DB}, got {db}");
}

#[test]
fn step_gain_clamps_at_the_top() {
    let near_top = gain_at(FADER_MAX_DB - 1.0);
    let stepped = stepped_by(near_top, VOLUME_STEP_DB);
    assert!((db_of(stepped) - FADER_MAX_DB).abs() < 1e-3);
}

#[test]
fn step_gain_clamps_at_the_bottom() {
    let near_bottom = gain_at(FADER_MIN_DB + 1.0);
    let stepped = stepped_by(near_bottom, -VOLUME_STEP_DB);
    assert_eq!(stepped, Gain::silent(), "clamped to the fader floor -- true silence");
}

#[test]
fn step_gain_moves_by_exactly_the_step_in_the_middle_of_the_range() {
    let mid = gain_at(0.0);
    let stepped = stepped_by(mid, VOLUME_STEP_DB);
    assert!((db_of(stepped) - VOLUME_STEP_DB).abs() < 1e-3);
}

#[test]
fn position_and_gain_round_trip_through_the_fader_mapping() {
    for position in [0.0, 0.25, 0.5, 0.75, 1.0] {
        let gain = position_to_gain(&Ieee, number(position));
        let back = value(gain_to_position(&Ieee, gain));
        assert!((back - position).abs() < 1e-3, "position {position} -> gain -> {back}");
    }
}

#[test]
fn position_zero_and_one_map_to_the_faders_own_extremes() {
    assert_eq!(position_to_gain(&Ieee, number(0.0)), Gain::silent());
    assert!((value(gain_to_position(&Ieee, gain_at(FADER_MAX_DB))) - 1.0).abs() < 1e-3);
}

#[test]
fn a_step_down_undoes_a_step_up() {
    let up = stepped_by(gain_at(-12.0), VOLUME_STEP_DB);
    let back = step_gain(&Ieee, up, Float32::from_bits(VOLUME_STEP_DOWN_DB_BITS));
    assert!((db_of(back) + 12.0).abs() < 1e-3);
    // A gain beyond the fader comes back onto it.
    assert!((db_of(stepped_by(gain_at(20.0), VOLUME_STEP_DB)) - FADER_MAX_DB).abs() < 1e-3);
}

#[test]
fn a_slider_that_stays_where_the_gain_is_asks_for_nothing() {
    let gain = gain_at(-20.0);
    let place = value(gain_to_position(&Ieee, gain));
    assert_eq!(moved_to(&Ieee, number(place), gain), None);
    assert_eq!(moved_to(&Ieee, number(place + 0.004), gain), None);
    let moved = moved_to(&Ieee, number(place + 0.1), gain).unwrap();
    assert!((db_of(moved) + 13.4).abs() < 1e-2, "{}", db_of(moved));
    assert_eq!(moved_to(&Ieee, number(-3.0), gain), Some(Gain::silent()));
    assert_eq!(moved_to(&Ieee, number(f32::NAN), gain), None);
}

#[test]
fn what_is_no_gain_is_silence() {
    assert_eq!(gain_at(f32::NAN), Gain::silent());
    assert_eq!(gain_at(f32::INFINITY), Gain::silent());
}

#[test]
fn a_meter_is_labelled_in_decibels() {
    let level = |peak: f32, clipped: bool| MeterLevel { peak: number(peak), clipped };
    assert_eq!(peak_db_label(level(0.5, false), "-6.0"), "-6.0 dBFS");
    assert_eq!(peak_db_label(level(1.0, true), "0.0"), "0.0 dBFS \u{2022} clip");
    assert_eq!(peak_db_label(level(0.0, false), "-inf"), "-inf dBFS");
    assert_eq!(peak_db_label(level(1.0e-7, true), "-140.0"), "-inf dBFS \u{2022} clip");
}

#[test]
fn wide_floats_compare_as_the_machine_does() {
    let values = [0.0, -0.0, 1.0, -1.0, 0.5, -60.0, f64::MAX, f64::MIN, f64::INFINITY, f64::NEG_INFINITY, f64::NAN];
    let wide = |v: f64| Float64::from_bits(v.to_bits());
    for a in values {
        assert_eq!(wide(a).is_positive(), a > 0.0, "{a}");
        for b in values {
            assert_eq!(wide(a).is_at_most(wide(b)), a <= b, "{a} {b}");
        }
    }
}

#[test]
fn the_endpoint_and_the_volume_keys_reach_the_mixer() {
    let snapshot = ConfigSnapshot {
        schema_version: 2,
        master: Gain::unity(),
        muted: false,
        groups: Vec::new(),
        app: AppConfig::default(),
        profiles: Vec::new(),
    };
    let d = Dispatcher::new(snapshot, None, Vec::new());
    let commands = |effects: Vec<Effect>| match effects.into_iter().next() {
        Some(Effect::SendCommands(commands)) => commands,
        other => panic!("{other:?}"),
    };
    let at_half = position_to_gain(&Ieee, number(0.5));
    let event = VolumeEvent { level: number(0.5), muted: true };
    let master = VolumeTarget::Master;
    assert!(d.reconcile(&Ieee, event, &master, Gain::unity(), false, true).is_empty());
    assert_eq!(
        commands(d.reconcile(&Ieee, event, &master, Gain::unity(), false, false)),
        vec![MixerCommand::SetMaster(at_half), MixerCommand::SetMuted(true)]
    );
    assert_eq!(
        commands(d.reconcile(&Ieee, event, &master, at_half, false, false)),
        vec![MixerCommand::SetMuted(true)]
    );
    assert!(d.reconcile(&Ieee, event, &master, at_half, true, false).is_empty());

    let stepped = step_gain(&Ieee, at_half, number(2.0));
    assert!(stepped != at_half);
    assert_eq!(
        commands(d.step(&Ieee, &master, at_half, number(2.0))),
        vec![MixerCommand::SetMaster(stepped)]
    );
}
