//! Levels as faders, meters and volume keys show them: in decibels, between a
//! floor that is silence and a top that boosts.
use crate::float::{Float32, Float64};
use crate::meter::MeterLevel;
use crate::numbers::faders_and_meters_have_their_scales;
use crate::ramp::{Arithmetic, LEVEL_FLOOR_BITS};
use crate::sample::{valid_gain, Gain};
use vstd::prelude::*;

verus! {

/// -60 dB, the bottom of faders and meters.
pub const FADER_MIN_DB_BITS: u32 = 0xc270_0000;

/// 6 dB, the top of faders.
pub const FADER_MAX_DB_BITS: u32 = 0x40c0_0000;

/// 66 dB, the travel of a fader.
pub const FADER_SPAN_DB_BITS: u32 = 0x4284_0000;

/// 60 dB, the height of a meter.
pub const METER_SPAN_DB_BITS: u32 = 0x4270_0000;

/// How fast a hold marker falls: half a bar in a second.
pub const HOLD_FALL_BITS: u32 = 0x3f00_0000;

/// 0.005: two positions of a slider closer than this are the same.
pub const MIRROR_EPSILON_BITS: u32 = 0x3ba3_d70a;

/// -60 dB in a value box.
pub const BOX_MIN_DB_BITS: u64 = 0xc04e_0000_0000_0000;

/// The number, or the bound that it is beyond. What is not a number stays so.
pub open spec fn clamped(x: Float32, low: Float32, high: Float32) -> Float32 {
    if x.less(low) {
        low
    } else if high.less(x) {
        high
    } else {
        x
    }
}

/// The greater of two numbers; what is not a number counts for nothing.
pub open spec fn larger(x: Float32, y: Float32) -> Float32 {
    if y.nan() || y.at_most(x) {
        x
    } else {
        y
    }
}

fn clamp(x: Float32, low: Float32, high: Float32) -> (r: Float32)
    ensures
        r == clamped(x, low, high),
{
    if x.is_less(low) {
        low
    } else if high.is_less(x) {
        high
    } else {
        x
    }
}

fn fader_min() -> (r: Float32)
    ensures
        r.bits == FADER_MIN_DB_BITS,
{
    Float32 { bits: FADER_MIN_DB_BITS }
}

/// The bounds of a share of a whole.
pub open spec fn share_of_whole(x: Float32) -> Float32 {
    clamped(x, Float32 { bits: 0 }, Float32 { bits: 0x3f80_0000 })
}

fn within_whole(x: Float32) -> (r: Float32)
    ensures
        r == share_of_whole(x),
{
    clamp(x, Float32 { bits: 0 }, Float32 { bits: 0x3f80_0000 })
}

/// How much of a meter a peak can fill: none at or below the level that is not
/// told from silence, else its decibels above the floor.
pub open spec fn fills<A: Arithmetic>(a: A, peak: Float32, r: Float32) -> bool {
    if peak.at_most(Float32 { bits: LEVEL_FLOOR_BITS }) {
        r == (Float32 { bits: 0 })
    } else {
        exists|db: Float32, above: Float32, share: Float32|
            {
                &&& #[trigger] call_ensures(A::decibels, (&a, peak), db)
                &&& #[trigger] call_ensures(
                    A::minus,
                    (&a, db, Float32 { bits: FADER_MIN_DB_BITS }),
                    above,
                )
                &&& #[trigger] call_ensures(
                    A::over,
                    (&a, above, Float32 { bits: METER_SPAN_DB_BITS }),
                    share,
                )
                &&& r == share_of_whole(share)
            }
    }
}

pub fn meter_fraction<A: Arithmetic>(a: &A, peak: Float32) -> (r: Float32)
    ensures
        fills(*a, peak, r),
{
    if peak.is_at_most(Float32 { bits: LEVEL_FLOOR_BITS }) {
        return Float32 { bits: 0 };
    }
    let db = a.decibels(peak);
    let above = a.minus(db, fader_min());
    let share = a.over(above, Float32 { bits: METER_SPAN_DB_BITS });
    within_whole(share)
}

/// A hold marker can stand here a moment later: up at once, down slowly.
pub open spec fn holds_at<A: Arithmetic>(
    a: A,
    previous: Float32,
    fraction: Float32,
    seconds: Float32,
    r: Float32,
) -> bool {
    exists|fall: Float32, low: Float32|
        {
            &&& #[trigger] call_ensures(
                A::times,
                (&a, Float32 { bits: HOLD_FALL_BITS }, seconds),
                fall,
            )
            &&& #[trigger] call_ensures(A::minus, (&a, previous, fall), low)
            &&& r == larger(low, fraction)
        }
}

/// The hold marker of a meter a moment later: up at once, down slowly.
pub fn advance_hold<A: Arithmetic>(
    a: &A,
    previous: Float32,
    fraction: Float32,
    seconds: Float32,
) -> (r: Float32)
    ensures
        holds_at(*a, previous, fraction, seconds, r),
{
    let fall = a.times(Float32 { bits: HOLD_FALL_BITS }, seconds);
    let low = a.minus(previous, fall);
    if fraction.is_nan() || fraction.is_at_most(low) {
        low
    } else {
        fraction
    }
}

/// The gain that a fader can stand for. The bottom is silence, and so is what
/// no gain can be.
pub open spec fn fader_gain<A: Arithmetic>(a: A, db: Float32, gain: Float32) -> bool {
    if db.at_most(Float32 { bits: FADER_MIN_DB_BITS }) {
        gain == (Float32 { bits: 0 })
    } else {
        exists|linear: Float32| #[trigger]
            call_ensures(A::linear, (&a, db), linear) && gain == if valid_gain(linear) {
                linear
            } else {
                Float32 { bits: 0 }
            }
    }
}

pub fn fader_db_to_gain<A: Arithmetic>(a: &A, db: Float32) -> (r: Gain)
    ensures
        fader_gain(*a, db, r.deep_view()),
{
    if db.is_at_most(fader_min()) {
        return Gain::silent();
    }
    let linear = a.linear(db);
    match Gain::new(linear) {
        Ok(gain) => gain,
        Err(e) => Gain::silent(),
    }
}

/// Where a gain stands on the scale of a fader. It is not held to the fader's
/// travel: a gain beyond it is shown as it is.
pub fn gain_to_fader_db<A: Arithmetic>(a: &A, gain: Gain) -> (r: Float32)
    ensures
        call_ensures(A::decibels, (a, gain.deep_view()), r),
{
    a.decibels(gain.value())
}

/// A gain one step of a volume key further can be this one.
pub open spec fn steps_to<A: Arithmetic>(
    a: A,
    gain: Float32,
    delta_db: Float32,
    to: Float32,
) -> bool {
    exists|db: Float32, moved: Float32|
        {
            &&& #[trigger] call_ensures(A::decibels, (&a, gain), db)
            &&& #[trigger] call_ensures(A::plus, (&a, db, delta_db), moved)
            &&& fader_gain(
                a,
                clamped(
                    moved,
                    Float32 { bits: FADER_MIN_DB_BITS },
                    Float32 { bits: FADER_MAX_DB_BITS },
                ),
                to,
            )
        }
}

/// One step of a volume key, within the travel of the fader.
pub fn step_gain<A: Arithmetic>(a: &A, gain: Gain, delta_db: Float32) -> (r: Gain)
    ensures
        steps_to(*a, gain.deep_view(), delta_db, r.deep_view()),
{
    let db = gain_to_fader_db(a, gain);
    let moved = a.plus(db, delta_db);
    let kept = clamp(moved, fader_min(), Float32 { bits: FADER_MAX_DB_BITS });
    fader_db_to_gain(a, kept)
}

/// A position on the system's slider can be this gain. The slider runs as the
/// fader does, boost and all.
pub open spec fn stands_for<A: Arithmetic>(a: A, position: Float32, gain: Float32) -> bool {
    exists|travel: Float32, db: Float32|
        {
            &&& #[trigger] call_ensures(
                A::times,
                (&a, share_of_whole(position), Float32 { bits: FADER_SPAN_DB_BITS }),
                travel,
            )
            &&& #[trigger] call_ensures(
                A::plus,
                (&a, Float32 { bits: FADER_MIN_DB_BITS }, travel),
                db,
            )
            &&& fader_gain(a, db, gain)
        }
}

pub fn position_to_gain<A: Arithmetic>(a: &A, position: Float32) -> (r: Gain)
    ensures
        stands_for(*a, position, r.deep_view()),
{
    let share = within_whole(position);
    let travel = a.times(share, Float32 { bits: FADER_SPAN_DB_BITS });
    let db = a.plus(fader_min(), travel);
    fader_db_to_gain(a, db)
}

/// A gain can stand at this position on the system's slider.
pub open spec fn placed_at<A: Arithmetic>(a: A, gain: Float32, position: Float32) -> bool {
    exists|db: Float32, above: Float32, share: Float32|
        {
            &&& #[trigger] call_ensures(A::decibels, (&a, gain), db)
            &&& #[trigger] call_ensures(
                A::minus,
                (&a, db, Float32 { bits: FADER_MIN_DB_BITS }),
                above,
            )
            &&& #[trigger] call_ensures(
                A::over,
                (&a, above, Float32 { bits: FADER_SPAN_DB_BITS }),
                share,
            )
            &&& position == share_of_whole(share)
        }
}

pub fn gain_to_position<A: Arithmetic>(a: &A, gain: Gain) -> (r: Float32)
    ensures
        placed_at(*a, gain.deep_view(), r),
{
    let db = gain_to_fader_db(a, gain);
    let above = a.minus(db, fader_min());
    let share = a.over(above, Float32 { bits: FADER_SPAN_DB_BITS });
    within_whole(share)
}

/// A slider at a position can ask this of a gain.
pub open spec fn asks<A: Arithmetic>(
    a: A,
    position: Float32,
    gain: Float32,
    asked: Option<Float32>,
) -> bool {
    &&& exists|place: Float32, apart: Float32|
        {
            &&& #[trigger] placed_at(a, gain, place)
            &&& #[trigger] call_ensures(A::minus, (&a, position, place), apart)
            &&& asked is Some == (MIRROR_EPSILON_BITS <= apart.magnitude() <= 0x7f80_0000)
        }
    &&& asked matches Some(to) ==> stands_for(a, position, to)
}

/// What the system's slider asks of a gain: the one that it stands for now, if
/// it was moved away from where the gain stands.
pub fn moved_to<A: Arithmetic>(a: &A, position: Float32, gain: Gain) -> (r: Option<Gain>)
    ensures
        asks(*a, position, gain.deep_view(), r.deep_view()),
{
    let place = gain_to_position(a, gain);
    let apart = a.minus(position, place);
    let far = apart.abs();
    if MIRROR_EPSILON_BITS <= far.to_bits() && !far.is_nan() {
        Some(position_to_gain(a, position))
    } else {
        None
    }
}

/// What a level box says of a level, given its digits: the bottom is the end of
/// the scale, and a boost has its sign.
pub open spec fn box_text(db: Float64, digits: Seq<char>) -> Seq<char> {
    if db.at_most(Float64 { bits: BOX_MIN_DB_BITS }) {
        "-inf dB"@
    } else if (Float64 { bits: 0 }).less(db) {
        "+"@ + digits + " dB"@
    } else {
        digits + " dB"@
    }
}

pub fn format_fader_db(db: Float64, digits: &str) -> (r: String)
    ensures
        r@ == box_text(db, digits@),
{
    if db.is_at_most(Float64 { bits: BOX_MIN_DB_BITS }) {
        String::from_str("-inf dB")
    } else if db.is_positive() {
        String::from_str("+").concat(digits).concat(" dB")
    } else {
        String::from_str(digits).concat(" dB")
    }
}

/// What is said of a meter, given the digits of its level.
pub open spec fn peak_text(level: MeterLevel, digits: Seq<char>) -> Seq<char> {
    let number = if level.peak.at_most(Float32 { bits: LEVEL_FLOOR_BITS }) {
        "-inf"@
    } else {
        digits
    };
    if level.clipped {
        number + " dBFS \u{2022} clip"@
    } else {
        number + " dBFS"@
    }
}

pub fn peak_db_label(level: MeterLevel, digits: &str) -> (r: String)
    ensures
        r@ == peak_text(level, digits@),
{
    let number: String = if level.peak.is_at_most(Float32 { bits: LEVEL_FLOOR_BITS }) {
        String::from_str("-inf")
    } else {
        String::from_str(digits)
    };
    if level.clipped {
        number.concat(" dBFS \u{2022} clip")
    } else {
        number.concat(" dBFS")
    }
}

/// A volume key never takes a fader beyond its travel: whatever the step, the
/// level that becomes a gain lies between its ends.
pub proof fn steps_stay_on_the_fader(moved: Float32)
    requires
        !moved.nan(),
    ensures
        ({
            let low = Float32 { bits: FADER_MIN_DB_BITS };
            let high = Float32 { bits: FADER_MAX_DB_BITS };
            let kept = clamped(moved, low, high);
            low.at_most(kept) && kept.at_most(high)
        }),
{
}

/// The bottom of a fader is silence, whatever the arithmetic.
pub proof fn the_bottom_is_silence<A: Arithmetic>(a: A, db: Float32, gain: Float32)
    requires
        db.at_most(Float32 { bits: FADER_MIN_DB_BITS }),
        fader_gain(a, db, gain),
    ensures
        gain == (Float32 { bits: 0 }),
{
}

/// A hold marker never stands below its bar.
pub proof fn a_hold_is_never_below_the_bar(low: Float32, fraction: Float32)
    requires
        !low.nan(),
        !fraction.nan(),
    ensures
        fraction.at_most(larger(low, fraction)),
{
}

/// A hold marker is where its bar is while that is higher, and falls half a bar in
/// a second elsewhere.
pub proof fn a_hold_falls_half_a_bar_in_a_second<A: Arithmetic>(
    a: A,
    previous: Float32,
    fraction: Float32,
    seconds: Float32,
    r: Float32,
    low: Float32,
)
    requires
        holds_at(a, previous, fraction, seconds, r),
        forall|half: Float32, fall: Float32, to: Float32|
            half.is_quotient(1, 2) && #[trigger] call_ensures(A::times, (&a, half, seconds), fall)
                && #[trigger] call_ensures(A::minus, (&a, previous, fall), to) ==> to == low,
        !low.nan(),
        !fraction.nan(),
    ensures
        low.less(fraction) ==> r == fraction,
        fraction.less(low) ==> r == low,
{
    faders_and_meters_have_their_scales();
    let half = Float32 { bits: HOLD_FALL_BITS };
    let (fall, to) = choose|fall: Float32, to: Float32|
        {
            &&& #[trigger] call_ensures(A::times, (&a, half, seconds), fall)
            &&& #[trigger] call_ensures(A::minus, (&a, previous, fall), to)
            &&& r == larger(to, fraction)
        };
    assert(half.is_quotient(1, 2));
}

/// Arithmetic on which decibels and factors are two ways to say the same: each is
/// made of the other, and more decibels are a larger factor.
pub open spec fn is_logarithmic<A: Arithmetic>(a: A) -> bool {
    &&& forall|db: Float32, factor: Float32, back: Float32|
        #[trigger] call_ensures(A::linear, (&a, db), factor) && #[trigger] call_ensures(
            A::decibels,
            (&a, factor),
            back,
        ) ==> back == db
    &&& forall|x: Float32, y: Float32, r: Float32, s: Float32|
        x.at_most(y) && #[trigger] call_ensures(A::linear, (&a, x), r)
            && #[trigger] call_ensures(A::linear, (&a, y), s) ==> r.at_most(s)
    &&& forall|db: Float32, factor: Float32|
        db.finite() && #[trigger] call_ensures(A::linear, (&a, db), factor) ==> valid_gain(factor)
            && (Float32 { bits: 0 }).at_most(factor)
}

/// A fader shows the level that it was set to, above its bottom.
pub proof fn a_fader_shows_what_it_was_set_to<A: Arithmetic>(
    a: A,
    db: Float32,
    gain: Float32,
    shown: Float32,
)
    requires
        is_logarithmic(a),
        db.finite(),
        (Float32 { bits: FADER_MIN_DB_BITS }).less(db),
        fader_gain(a, db, gain),
        call_ensures(A::decibels, (&a, gain), shown),
    ensures
        shown == db,
{
}

/// A fader is louder the higher it stands.
pub proof fn a_fader_is_louder_the_higher_it_stands<A: Arithmetic>(
    a: A,
    low: Float32,
    high: Float32,
    quiet: Float32,
    loud: Float32,
)
    requires
        is_logarithmic(a),
        low.finite(),
        high.finite(),
        low.at_most(high),
        fader_gain(a, low, quiet),
        fader_gain(a, high, loud),
    ensures
        quiet.at_most(loud),
{
}

/// A volume key moves a level by as many decibels as it says, and no further than
/// the fader goes.
pub proof fn a_key_moves_a_level_by_its_decibels<A: Arithmetic>(
    a: A,
    gain: Float32,
    delta_db: Float32,
    to: Float32,
    db: Float32,
    moved: Float32,
    shown: Float32,
)
    requires
        is_logarithmic(a),
        steps_to(a, gain, delta_db, to),
        forall|r: Float32| #[trigger] call_ensures(A::decibels, (&a, gain), r) ==> r == db,
        forall|r: Float32| #[trigger] call_ensures(A::plus, (&a, db, delta_db), r) ==> r == moved,
        moved.finite(),
        call_ensures(A::decibels, (&a, to), shown),
    ensures
        ({
            let low = Float32 { bits: FADER_MIN_DB_BITS };
            let high = Float32 { bits: FADER_MAX_DB_BITS };
            &&& low.less(moved) && moved.at_most(high) ==> shown == moved
            &&& moved.at_most(low) ==> to.bits == 0
            &&& high.less(moved) ==> shown == high
        }),
{
    let (d, m) = choose|d: Float32, m: Float32|
        {
            &&& #[trigger] call_ensures(A::decibels, (&a, gain), d)
            &&& #[trigger] call_ensures(A::plus, (&a, d, delta_db), m)
            &&& fader_gain(
                a,
                clamped(
                    m,
                    Float32 { bits: FADER_MIN_DB_BITS },
                    Float32 { bits: FADER_MAX_DB_BITS },
                ),
                to,
            )
        };
    assert(d == db && m == moved);
}

/// Arithmetic on which a share of a travel can be taken and told again.
pub open spec fn measures<A: Arithmetic>(a: A) -> bool {
    &&& forall|x: Float32, y: Float32, r: Float32, back: Float32|
        #[trigger] call_ensures(A::times, (&a, x, y), r) && #[trigger] call_ensures(
            A::over,
            (&a, r, y),
            back,
        ) ==> back == x
    &&& forall|x: Float32, y: Float32, r: Float32, back: Float32|
        #[trigger] call_ensures(A::plus, (&a, x, y), r) && #[trigger] call_ensures(
            A::minus,
            (&a, r, x),
            back,
        ) ==> back == y
}

/// The system's slider and the gain that it stands for say the same: a gain that
/// was taken from a position is shown there.
pub proof fn a_slider_shows_where_it_was_put<A: Arithmetic>(
    a: A,
    position: Float32,
    gain: Float32,
    shown: Float32,
    db: Float32,
)
    requires
        is_logarithmic(a),
        measures(a),
        (Float32 { bits: 0 }).at_most(position),
        position.at_most(Float32 { bits: 0x3f80_0000 }),
        forall|travel: Float32, r: Float32|
            #[trigger] call_ensures(
                A::times,
                (&a, position, Float32 { bits: FADER_SPAN_DB_BITS }),
                travel,
            ) && #[trigger] call_ensures(
                A::plus,
                (&a, Float32 { bits: FADER_MIN_DB_BITS }, travel),
                r,
            ) ==> r == db,
        db.finite(),
        (Float32 { bits: FADER_MIN_DB_BITS }).less(db),
        stands_for(a, position, gain),
        placed_at(a, gain, shown),
    ensures
        shown == position,
{
    let low = Float32 { bits: FADER_MIN_DB_BITS };
    let span = Float32 { bits: FADER_SPAN_DB_BITS };
    assert(share_of_whole(position) == position);
    let (travel, level) = choose|travel: Float32, level: Float32|
        {
            &&& #[trigger] call_ensures(A::times, (&a, share_of_whole(position), span), travel)
            &&& #[trigger] call_ensures(A::plus, (&a, low, travel), level)
            &&& fader_gain(a, level, gain)
        };
    assert(level == db);
    let (found, above, share) = choose|found: Float32, above: Float32, share: Float32|
        {
            &&& #[trigger] call_ensures(A::decibels, (&a, gain), found)
            &&& #[trigger] call_ensures(A::minus, (&a, found, low), above)
            &&& #[trigger] call_ensures(A::over, (&a, above, span), share)
            &&& shown == share_of_whole(share)
        };
    assert(found == db);
    assert(above == travel);
    assert(share == position);
}

/// Arithmetic that keeps an order.
pub open spec fn keeps_order<A: Arithmetic>(a: A, by: Float32, span: Float32) -> bool {
    &&& forall|x: Float32, y: Float32, r: Float32, s: Float32|
        x.at_most(y) && #[trigger] call_ensures(A::decibels, (&a, x), r)
            && #[trigger] call_ensures(A::decibels, (&a, y), s) ==> r.at_most(s)
    &&& forall|x: Float32, y: Float32, r: Float32, s: Float32|
        x.at_most(y) && #[trigger] call_ensures(A::minus, (&a, x, by), r)
            && #[trigger] call_ensures(A::minus, (&a, y, by), s) ==> r.at_most(s)
    &&& forall|x: Float32, y: Float32, r: Float32, s: Float32|
        x.at_most(y) && #[trigger] call_ensures(A::over, (&a, x, span), r)
            && #[trigger] call_ensures(A::over, (&a, y, span), s) ==> r.at_most(s)
}

/// A louder peak fills no less of a meter, and what is full fills all of it.
pub proof fn a_meter_is_fuller_the_louder_it_gets<A: Arithmetic>(
    a: A,
    quiet: Float32,
    loud: Float32,
    less: Float32,
    more: Float32,
)
    requires
        keeps_order(
            a,
            Float32 { bits: FADER_MIN_DB_BITS },
            Float32 { bits: METER_SPAN_DB_BITS },
        ),
        quiet.at_most(loud),
        fills(a, quiet, less),
        fills(a, loud, more),
        !more.nan(),
    ensures
        less.at_most(more),
        (Float32 { bits: 0 }).at_most(more),
        more.at_most(Float32 { bits: 0x3f80_0000 }),
{
    let floor = Float32 { bits: LEVEL_FLOOR_BITS };
    if !quiet.at_most(floor) {
        let low = Float32 { bits: FADER_MIN_DB_BITS };
        let span = Float32 { bits: METER_SPAN_DB_BITS };
        let (d, u, s) = choose|db: Float32, above: Float32, share: Float32|
            {
                &&& #[trigger] call_ensures(A::decibels, (&a, quiet), db)
                &&& #[trigger] call_ensures(A::minus, (&a, db, low), above)
                &&& #[trigger] call_ensures(A::over, (&a, above, span), share)
                &&& less == share_of_whole(share)
            };
        let (e, v, t) = choose|db: Float32, above: Float32, share: Float32|
            {
                &&& #[trigger] call_ensures(A::decibels, (&a, loud), db)
                &&& #[trigger] call_ensures(A::minus, (&a, db, low), above)
                &&& #[trigger] call_ensures(A::over, (&a, above, span), share)
                &&& more == share_of_whole(share)
            };
        assert(d.at_most(e));
        assert(u.at_most(v));
        assert(s.at_most(t));
    }
}

/// What a slider asks of a gain it stands for itself, and it asks nothing where it
/// is closer to where the gain stands than can be told apart.
pub proof fn a_slider_asks_for_what_it_stands_for<A: Arithmetic>(
    a: A,
    position: Float32,
    gain: Float32,
    asked: Option<Float32>,
    place: Float32,
    off: Float32,
)
    requires
        asks(a, position, gain, asked),
        forall|r: Float32| #[trigger] placed_at(a, gain, r) ==> r == place,
        forall|r: Float32| #[trigger] call_ensures(A::minus, (&a, position, place), r) ==> r == off,
        !off.nan(),
    ensures
        asked matches Some(to) ==> stands_for(a, position, to),
        asked is Some <==> MIRROR_EPSILON_BITS <= off.magnitude(),
{
}

} // verus!
