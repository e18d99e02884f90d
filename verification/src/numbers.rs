//! What the constants stand for. They are written as bit patterns; here it is
//! shown which numbers those are.
use crate::action::{VOLUME_STEP_DB_BITS, VOLUME_STEP_DOWN_DB_BITS};
use crate::dispatcher::MAX_HOLD_MS;
use crate::dynamics::{ENGAGED_BITS, LIMITER_ATTACK_BITS, LIMITER_RELEASE_BITS};
use crate::equalizer::{DENORMAL_FLOOR_BITS, RECOMPUTE_FRAMES};
use crate::float::{Float32, Float64};
use crate::levels::{
    BOX_MIN_DB_BITS, FADER_MAX_DB_BITS, FADER_MIN_DB_BITS, FADER_SPAN_DB_BITS, HOLD_FALL_BITS,
    METER_SPAN_DB_BITS, MIRROR_EPSILON_BITS,
};
use crate::meter::{FULL_SCALE_BITS, METER_RELEASE_BITS, SILENCE_BITS};
use crate::model::GroupView;
use crate::plan::{BLOCK_FRAMES, MAX_RATE, MIN_RATE};
use crate::ramp::{
    DETECT_ATTACK_BITS, DETECT_RELEASE_BITS, LEVEL_FLOOR_BITS, ONE_BITS, SETTING_TIME_BITS,
    THOUSAND_BITS,
};
use crate::sample::{valid_ratio, MAX_RESAMPLE_RATIO, MIN_RESAMPLE_RATIO};
use crate::settings::{
    first_band, first_ceiling, first_duck, plain_group, MAX_COLUMN_WIDTH_BITS,
    MAX_FADER_HEIGHT_BITS, MIN_COLUMN_WIDTH_BITS, MIN_FADER_HEIGHT_BITS,
};
use crate::theme::{HOT_BITS, NEAR_CLIP_BITS};
use crate::watch::{DEBOUNCE_MS, IDLE_POLL_MS};
use vstd::arithmetic::power2::pow2;
use vstd::prelude::*;

verus! {

/// A number whose exponent stands `k` doublings below that of the whole numbers.
proof fn lemma_quotient(x: Float32, e: int, k: nat, n: nat, d: nat)
    requires
        x.bits < 0x7f80_0000,
        e == x.bits as int / 0x80_0000,
        e >= 1,
        k == 150 - e,
        2 * (d * x.significand() - n * pow2(k)) <= d,
        2 * (n * pow2(k) - d * x.significand()) <= d,
    ensures
        x.is_quotient(n, d),
{
    let low = (e - 1) as nat;
    vstd::arithmetic::power2::lemma_pow2_adds(low, k);
    vstd::arithmetic::power2::lemma_pow2_pos(low);
    let step = pow2(low) as int;
    let sig = x.significand();
    let whole = pow2(k) as int;
    assert(x.units() == sig * step);
    assert(pow2(149) == step * whole);
    assert(2 * (d * (sig * step) - n * (step * whole)) <= d * step) by (nonlinear_arith)
        requires
            2 * (d * sig - n * whole) <= d,
            step > 0,
    ;
    assert(2 * (n * (step * whole) - d * (sig * step)) <= d * step) by (nonlinear_arith)
        requires
            2 * (n * whole - d * sig) <= d,
            step > 0,
    ;
}

/// One is one.
pub proof fn one_is_one()
    ensures
        (Float32 { bits: ONE_BITS }).is_quotient(1, 1),
{
    vstd::arithmetic::power2::lemma2_to64();
    lemma_quotient(Float32 { bits: ONE_BITS }, 127, 23, 1, 1);
}

/// Settings take a hundredth of a second.
pub proof fn settings_take_ten_milliseconds()
    ensures
        (Float32 { bits: SETTING_TIME_BITS }).is_quotient(1, 100),
{
    vstd::arithmetic::power2::lemma2_to64();
    lemma_quotient(Float32 { bits: SETTING_TIME_BITS }, 120, 30, 1, 100);
}

/// A limiter takes 2 ms to go down and 50 to go up, and a gain below 0.999 is a
/// reduction.
pub proof fn limiters_take_their_time()
    ensures
        (Float32 { bits: LIMITER_ATTACK_BITS }).is_quotient(2, 1),
        (Float32 { bits: LIMITER_RELEASE_BITS }).is_quotient(50, 1),
        (Float32 { bits: ENGAGED_BITS }).is_quotient(999, 1000),
{
    vstd::arithmetic::power2::lemma2_to64();
    lemma_quotient(Float32 { bits: LIMITER_ATTACK_BITS }, 128, 22, 2, 1);
    lemma_quotient(Float32 { bits: LIMITER_RELEASE_BITS }, 132, 18, 50, 1);
    lemma_quotient(Float32 { bits: ENGAGED_BITS }, 126, 24, 999, 1000);
}

/// A level is found within 5 ms where it rises and within 100 where it falls. What
/// is below a millionth is not told apart, and a second has a thousand
/// milliseconds.
pub proof fn detectors_take_their_time()
    ensures
        (Float32 { bits: DETECT_ATTACK_BITS }).is_quotient(5, 1),
        (Float32 { bits: DETECT_RELEASE_BITS }).is_quotient(100, 1),
        (Float32 { bits: LEVEL_FLOOR_BITS }).is_quotient(1, 1_000_000),
        (Float32 { bits: THOUSAND_BITS }).is_quotient(1000, 1),
{
    vstd::arithmetic::power2::lemma2_to64();
    lemma_quotient(Float32 { bits: DETECT_ATTACK_BITS }, 129, 21, 5, 1);
    lemma_quotient(Float32 { bits: DETECT_RELEASE_BITS }, 133, 17, 100, 1);
    vstd::arithmetic::power2::lemma_pow2_adds(32, 11);
    lemma_quotient(Float32 { bits: LEVEL_FLOOR_BITS }, 107, 43, 1, 1_000_000);
    lemma_quotient(Float32 { bits: THOUSAND_BITS }, 136, 14, 1000, 1);
}

/// A filter forgets what is below 1e-15.
pub proof fn next_to_nothing_is_small()
    ensures
        (Float32 { bits: DENORMAL_FLOOR_BITS }).is_quotient(1, 1_000_000_000_000_000),
{
    vstd::arithmetic::power2::lemma2_to64();
    vstd::arithmetic::power2::lemma_pow2_adds(64, 9);
    lemma_quotient(
        Float32 { bits: DENORMAL_FLOOR_BITS },
        77,
        73,
        1,
        1_000_000_000_000_000,
    );
}

/// A meter falls within 0.3 s, clips at full scale, and shows nothing below a
/// thousand-millionth.
pub proof fn meters_take_their_time()
    ensures
        (Float32 { bits: METER_RELEASE_BITS }).is_quotient(3, 10),
        (Float32 { bits: FULL_SCALE_BITS }).is_quotient(1, 1),
        (Float32 { bits: SILENCE_BITS }).is_quotient(1, 1_000_000_000),
{
    vstd::arithmetic::power2::lemma2_to64();
    vstd::arithmetic::power2::lemma_pow2_adds(32, 21);
    lemma_quotient(Float32 { bits: METER_RELEASE_BITS }, 125, 25, 3, 10);
    lemma_quotient(Float32 { bits: FULL_SCALE_BITS }, 127, 23, 1, 1);
    lemma_quotient(Float32 { bits: SILENCE_BITS }, 97, 53, 1, 1_000_000_000);
}

/// A fader runs from -60 dB to 6 dB, which is 66 dB of travel; a meter runs over 60
/// of them, and its hold marker falls half of it in a second. Positions of a slider
/// closer than 0.005 are the same.
pub proof fn faders_and_meters_have_their_scales()
    ensures
        (Float32 { bits: FADER_MIN_DB_BITS }).opposite().is_quotient(60, 1),
        FADER_MIN_DB_BITS >= 0x8000_0000,
        (Float32 { bits: FADER_MAX_DB_BITS }).is_quotient(6, 1),
        (Float32 { bits: FADER_SPAN_DB_BITS }).is_quotient(66, 1),
        (Float32 { bits: METER_SPAN_DB_BITS }).is_quotient(60, 1),
        (Float32 { bits: HOLD_FALL_BITS }).is_quotient(1, 2),
        (Float32 { bits: MIRROR_EPSILON_BITS }).is_quotient(5, 1000),
        (Float32 { bits: NEAR_CLIP_BITS }).is_quotient(9, 10),
        (Float32 { bits: HOT_BITS }).is_quotient(3, 4),
{
    vstd::arithmetic::power2::lemma2_to64();
    lemma_quotient((Float32 { bits: FADER_MIN_DB_BITS }).opposite(), 132, 18, 60, 1);
    lemma_quotient(Float32 { bits: FADER_MAX_DB_BITS }, 129, 21, 6, 1);
    lemma_quotient(Float32 { bits: FADER_SPAN_DB_BITS }, 133, 17, 66, 1);
    lemma_quotient(Float32 { bits: METER_SPAN_DB_BITS }, 132, 18, 60, 1);
    lemma_quotient(Float32 { bits: HOLD_FALL_BITS }, 126, 24, 1, 2);
    lemma_quotient(Float32 { bits: MIRROR_EPSILON_BITS }, 119, 31, 5, 1000);
    lemma_quotient(Float32 { bits: NEAR_CLIP_BITS }, 126, 24, 9, 10);
    lemma_quotient(Float32 { bits: HOT_BITS }, 126, 24, 3, 4);
}

/// A volume key is a step of 3 dB, up or down.
pub proof fn keys_step_by_three_decibels()
    ensures
        (Float32 { bits: VOLUME_STEP_DB_BITS }).is_quotient(3, 1),
        (Float32 { bits: VOLUME_STEP_DOWN_DB_BITS }) == (Float32 {
            bits: VOLUME_STEP_DB_BITS,
        }).opposite(),
{
    vstd::arithmetic::power2::lemma2_to64();
    lemma_quotient(Float32 { bits: VOLUME_STEP_DB_BITS }, 128, 22, 3, 1);
}

/// The columns of the mixer page are 100 to 220 points wide, and their faders 120
/// to 400 high.
pub proof fn columns_have_their_bounds()
    ensures
        (Float32 { bits: MIN_COLUMN_WIDTH_BITS }).is_quotient(100, 1),
        (Float32 { bits: MAX_COLUMN_WIDTH_BITS }).is_quotient(220, 1),
        (Float32 { bits: MIN_FADER_HEIGHT_BITS }).is_quotient(120, 1),
        (Float32 { bits: MAX_FADER_HEIGHT_BITS }).is_quotient(400, 1),
{
    vstd::arithmetic::power2::lemma2_to64();
    lemma_quotient(Float32 { bits: MIN_COLUMN_WIDTH_BITS }, 133, 17, 100, 1);
    lemma_quotient(Float32 { bits: MAX_COLUMN_WIDTH_BITS }, 134, 16, 220, 1);
    lemma_quotient(Float32 { bits: MIN_FADER_HEIGHT_BITS }, 133, 17, 120, 1);
    lemma_quotient(Float32 { bits: MAX_FADER_HEIGHT_BITS }, 135, 15, 400, 1);
}

/// A hold ends after half a minute at the latest, a burst of changes to the file
/// is over after a tenth of a second, and the file is looked at once an hour.
pub proof fn waits_have_their_lengths()
    ensures
        MAX_HOLD_MS == 30 * 1000,
        DEBOUNCE_MS * 10 == 1000,
        IDLE_POLL_MS == 60 * 60 * 1000,
{
}

/// A second of audio at 48 kHz is a hundred blocks.
pub proof fn blocks_are_ten_milliseconds()
    ensures
        BLOCK_FRAMES * 100 == 48_000,
        RECOMPUTE_FRAMES == 32,
        MIN_RATE == 8_000,
        MAX_RATE == 384_000,
{
}

/// What a new equaliser, limiter, ducking and group start with: a flat band at 1 kHz
/// with a q of 0.7, a ceiling of -1 dB, 6 dB of ducking above -30 dB within 5 and
/// 200 ms, and full level.
pub proof fn new_settings_have_their_numbers(
    groups: Seq<GroupView>,
    name: Seq<char>,
    device: Seq<char>,
    rules: Seq<Seq<char>>,
)
    ensures
        first_band().freq_hz.is_quotient(1000, 1),
        first_band().gain_db.bits == 0,
        first_band().q.is_quotient(7, 10),
        first_ceiling().less(Float32 { bits: 0 }),
        first_ceiling().opposite().is_quotient(1, 1),
        first_duck(groups, name).amount_db.is_quotient(6, 1),
        first_duck(groups, name).threshold_db.less(Float32 { bits: 0 }),
        first_duck(groups, name).threshold_db.opposite().is_quotient(30, 1),
        first_duck(groups, name).attack_ms.is_quotient(5, 1),
        first_duck(groups, name).release_ms.is_quotient(200, 1),
        plain_group(name, device, rules).gain.is_quotient(1, 1),
{
    vstd::arithmetic::power2::lemma2_to64();
    let duck = first_duck(groups, name);
    lemma_quotient(first_band().freq_hz, 136, 14, 1000, 1);
    lemma_quotient(first_band().q, 126, 24, 7, 10);
    lemma_quotient(first_ceiling().opposite(), 127, 23, 1, 1);
    lemma_quotient(duck.amount_db, 129, 21, 6, 1);
    lemma_quotient(duck.threshold_db.opposite(), 131, 19, 30, 1);
    lemma_quotient(duck.attack_ms, 129, 21, 5, 1);
    lemma_quotient(duck.release_ms, 134, 16, 200, 1);
    lemma_quotient(plain_group(name, device, rules).gain, 127, 23, 1, 1);
}

/// A positive number of twice the width, as a whole number of the steps that its
/// exponent leaves.
pub open spec fn steps(bits: u64) -> int {
    0x10_0000_0000_0000 + bits as int % 0x10_0000_0000_0000
}

/// Drift is corrected by a tenth at most: the ratios run from 0.9 to 1.1, and one
/// is between them. The box of a fader ends where the fader does.
pub proof fn drift_is_corrected_by_a_tenth()
    ensures
        MIN_RESAMPLE_RATIO as int / 0x10_0000_0000_0000 == 1022,
        -5 <= 10 * steps(MIN_RESAMPLE_RATIO) - 9 * pow2(53) <= 5,
        MAX_RESAMPLE_RATIO as int / 0x10_0000_0000_0000 == 1023,
        -5 <= 10 * steps(MAX_RESAMPLE_RATIO) - 11 * pow2(52) <= 5,
        (Float64 { bits: BOX_MIN_DB_BITS }).stands_for(Float32 { bits: FADER_MIN_DB_BITS }),
        valid_ratio(Float64 { bits: 0x3ff0_0000_0000_0000 }),
{
    vstd::arithmetic::power2::lemma2_to64();
    vstd::arithmetic::power2::lemma_pow2_adds(32, 20);
    vstd::arithmetic::power2::lemma_pow2_adds(32, 21);
}

} // verus!
