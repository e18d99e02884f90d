//! How equalisers, limiters and ducking respond: what they are set to is what is
//! heard of them.
use crate::desk::{
    bus_fresh, duck_goal, duck_ready, duck_runs, ducks_from, Bus, Desk, Machine,
};
use crate::dsp::EqBandSpec;
use crate::dynamics::{
    ducked_by, ducking, ducks_at, finds, follower_fresh, follows_at, limited, limiter_fresh,
    limiting, limits_at, reduces, DuckTargetGain, EnvFollower, Limiter, LimiterCourse,
    ENGAGED_BITS,
};
use crate::equalizer::{
    band_after, band_fresh, band_runs, eq_fresh, eq_retuned, equalized, filters_at, passes_band,
    remembered, retuned, row_runs, tuned_at, BandCourse, EqBandView, ParametricEqView,
    DENORMAL_FLOOR_BITS, RECOMPUTE_FRAMES,
};
use crate::float::Float32;
use crate::meter::{clips, frame_peak, greatest, observes, MeterLevel, PeakMeter};
use crate::mixer::{group_at, lemma_group_at, output_at, GroupView, Mixer};
use crate::numbers::{detectors_take_their_time, limiters_take_their_time, one_is_one};
use crate::ramp::{
    a_bypassed_stage_is_not_heard, apart, between, blends_whole, crossfades, earlier, floored,
    glides, keeps_its_way, left_after, lemma_resting, lemma_whole_frames, nears,
    rests_at_its_target, scaled, settles_ms, takes_ms, Arithmetic, Coefficients, Memory,
    LEVEL_FLOOR_BITS,
};
use crate::resample::least;
use crate::sample::{DuckSpec, Format, GroupId};
use crate::signal::ducks;
use crate::tick::{duck_step, duck_trigger, told_to_duck};
use vstd::prelude::*;

verus! {

/// A band that has arrived at its settings.
pub open spec fn has_arrived(band: EqBandView, spec: EqBandSpec) -> bool {
    &&& band.freq.current == spec.freq_hz && band.freq.target == spec.freq_hz
    &&& band.gain_db.current == spec.gain_db && band.gain_db.target == spec.gain_db
    &&& band.q.current == spec.q && band.q.target == spec.q
}

/// A sample can come out of the filter that a band's settings ask for.
pub open spec fn is_filtered<A: Arithmetic>(
    a: A,
    spec: EqBandSpec,
    sample_rate: u32,
    x: Float32,
    y: Float32,
) -> bool {
    exists|coefficients: Coefficients, before: Memory, after: Memory|
        #[trigger] call_ensures(
            A::peaking,
            (&a, spec.freq_hz, spec.gain_db, spec.q, sample_rate),
            coefficients,
        ) && #[trigger] call_ensures(A::filter, (&a, coefficients, before, x), (after, y))
}

/// A band is tuned to its own settings: every sample of a block goes through the
/// filter for the band's frequency, its gain and its q, each in its place and as
/// it is set, and the band stays tuned to them.
pub proof fn a_band_is_tuned_to_its_settings<A: Arithmetic>(
    a: A,
    spec: EqBandSpec,
    band: EqBandView,
    sample_rate: u32,
    channels: int,
    block: Seq<Float32>,
    course: BandCourse,
    out: Seq<Float32>,
    i: int,
)
    requires
        rests_at_its_target(a),
        channels > 0,
        has_arrived(band, spec),
        band_runs(a, band, sample_rate, channels, block, course, out),
    ensures
        0 <= i < (block.len() as int / channels) * channels ==> is_filtered(
            a,
            spec,
            sample_rate,
            block[i],
            out[i],
        ),
        has_arrived(band_after(band, course), spec),
{
    let n = block.len() as int / channels;
    lemma_resting(a, band.freq, course.freqs, n);
    lemma_resting(a, band.gain_db, course.gains, n);
    lemma_resting(a, band.q, course.qs, n);
    if 0 <= i < n * channels {
        lemma_whole_frames(i, channels, n);
        vstd::arithmetic::div_mod::lemma_div_pos_is_pos(i, channels);
        vstd::arithmetic::div_mod::lemma_fundamental_div_mod(i, channels);
        let f = i / channels;
        let c = i % channels;
        assert(f * channels + c == i) by (nonlinear_arith)
            requires
                i == channels * f + c,
        ;
        let k = f / (RECOMPUTE_FRAMES as int);
        let last = least((k + 1) * RECOMPUTE_FRAMES, n) - 1;
        assert(0 <= last < n);
        assert(0 <= k < course.coefficients.len());
        assert(tuned_at(a, course, sample_rate, n, k));
        assert(filters_at(a, band, channels, block, course, out, f, c));
        assert(call_ensures(
            A::peaking,
            (&a, spec.freq_hz, spec.gain_db, spec.q, sample_rate),
            course.coefficients[k],
        ));
    }
}

/// A new band has arrived at what it is made for, and one that is set to other
/// settings goes to those and forgets nothing of what it heard.
pub proof fn a_band_goes_to_its_settings<A: Arithmetic>(
    a: A,
    spec: EqBandSpec,
    sample_rate: u32,
    channels: nat,
    band: EqBandView,
)
    ensures
        band_fresh(a, spec, sample_rate, channels, band) ==> has_arrived(band, spec),
        ({
            let set = retuned(band, spec);
            &&& set.freq.target == spec.freq_hz && set.freq.current == band.freq.current
            &&& set.gain_db.target == spec.gain_db && set.gain_db.current == band.gain_db.current
            &&& set.q.target == spec.q && set.q.current == band.q.current
            &&& set.memories == band.memories
        }),
{
}

/// Other settings for one band leave the others as they are.
pub proof fn a_band_is_set_alone(eq: ParametricEqView, band: int, spec: EqBandSpec, other: int)
    requires
        0 <= band < eq.bands.len(),
        0 <= other < eq.bands.len(),
    ensures
        other != band ==> eq_retuned(eq, band, spec).bands[other] == eq.bands[other],
        eq_retuned(eq, band, spec).bands[band].freq.target == spec.freq_hz,
        eq_retuned(eq, band, spec).bands[band].gain_db.target == spec.gain_db,
        eq_retuned(eq, band, spec).bands[band].q.target == spec.q,
        eq_retuned(eq, band, spec).bypass == eq.bypass,
{
}

/// An equaliser of one band does what the band is set to: a new one lets every
/// sample of a block pass the filter for the band's frequency, gain and q.
pub proof fn an_equaliser_does_what_it_is_set_to<A: Arithmetic>(
    a: A,
    spec: EqBandSpec,
    fmt: Format,
    eq: ParametricEqView,
    block: Seq<Float32>,
    after: ParametricEqView,
    out: Seq<Float32>,
    i: int,
)
    requires
        rests_at_its_target(a),
        fmt.channels > 0,
        eq_fresh(a, seq![spec], fmt, eq),
        equalized(a, eq, block, after, out),
        blends_whole(a),
        0 <= i < (block.len() as int / fmt.channels as int) * fmt.channels,
    ensures
        is_filtered(a, spec, fmt.sample_rate, block[i], out[i]),
{
    let channels = fmt.channels as int;
    let signals = choose|signals: Seq<Seq<Float32>>| #[trigger]
        row_runs(a, eq, block, signals, after) && crossfades(
            a,
            eq.bypass.mix,
            block,
            signals.last(),
            eq.channels as int,
            after.bypass.mix,
            out,
        );
    assert(band_fresh(a, seq![spec][0], fmt.sample_rate, fmt.channels as nat, eq.bands[0]));
    assert(passes_band(a, eq, signals, after, 0));
    let wet = signals[1];
    let course = choose|course: BandCourse| #[trigger]
        band_runs(a, eq.bands[0], eq.sample_rate, eq.channels as int, block, course, wet)
            && after.bands[0] == band_after(eq.bands[0], course);
    a_band_is_tuned_to_its_settings(
        a,
        spec,
        eq.bands[0],
        fmt.sample_rate,
        channels,
        block,
        course,
        wet,
        i,
    );
    assert(signals.last() == wet);
    a_bypassed_stage_is_not_heard(
        a,
        eq.bypass,
        false,
        block,
        wet,
        channels,
        after.bypass.mix,
        out,
        i,
    );
}

/// What one filter hears and what comes out of it, sample by sample, and what it
/// remembers before each.
pub open spec fn filters_in_turn<A: Arithmetic>(
    a: A,
    coefficients: spec_fn(int) -> Coefficients,
    memories: Seq<Memory>,
    heard: Seq<Float32>,
    made: Seq<Float32>,
) -> bool {
    &&& memories.len() == heard.len() + 1
    &&& made.len() == heard.len()
    &&& forall|f: int|
        0 <= f < heard.len() ==> #[trigger] call_ensures(
            A::filter,
            (&a, coefficients(f), memories[f], heard[f]),
            (memories[f + 1], made[f]),
        )
}

/// One channel of a block.
pub open spec fn channel_of(block: Seq<Float32>, channels: int, c: int) -> Seq<Float32> {
    Seq::new((block.len() as int / channels) as nat, |f: int| block[f * channels + c])
}

/// A number is kept, unless it is next to nothing and forgotten.
pub open spec fn is_kept(before: Float32, after: Float32) -> bool {
    after == before || (after.bits == 0 && before.magnitude() < DENORMAL_FLOOR_BITS)
}

/// Each channel goes through a filter of its own: one that begins with what it
/// remembers of that channel, hears nothing of the others, and carries what it
/// heard into the next block.
pub proof fn a_band_filters_each_channel_by_itself<A: Arithmetic>(
    a: A,
    band: EqBandView,
    sample_rate: u32,
    channels: int,
    block: Seq<Float32>,
    course: BandCourse,
    out: Seq<Float32>,
    c: int,
) -> (memories: Seq<Memory>)
    requires
        channels > 0,
        band.memories.len() == channels,
        band_runs(a, band, sample_rate, channels, block, course, out),
        0 <= c < channels,
    ensures
        filters_in_turn(
            a,
            |f: int| course.coefficients[f / 32],
            memories,
            channel_of(block, channels, c),
            channel_of(out, channels, c),
        ),
        memories[0] == band.memories[c],
        is_kept(memories.last().z1, band_after(band, course).memories[c].z1),
        is_kept(memories.last().z2, band_after(band, course).memories[c].z2),
{
    let n = block.len() as int / channels;
    let memories = Seq::new((n + 1) as nat, |f: int| remembered(band, course, f)[c]);
    let heard = channel_of(block, channels, c);
    let made = channel_of(out, channels, c);
    let coefficients = |f: int| course.coefficients[f / 32];
    assert forall|f: int| 0 <= f < heard.len() implies #[trigger] call_ensures(
        A::filter,
        (&a, coefficients(f), memories[f], heard[f]),
        (memories[f + 1], made[f]),
    ) by {
        assert(filters_at(a, band, channels, block, course, out, f, c));
    }
    memories
}

/// A row of bands can make `out` of a block.
pub open spec fn row_makes<A: Arithmetic>(
    a: A,
    eq: ParametricEqView,
    block: Seq<Float32>,
    after: ParametricEqView,
    out: Seq<Float32>,
) -> bool {
    exists|signals: Seq<Seq<Float32>>| #[trigger]
        row_runs(a, eq, block, signals, after) && signals.last() == out
}

/// The bands from one position up to another.
pub open spec fn some_bands(eq: ParametricEqView, from: int, to: int) -> ParametricEqView {
    ParametricEqView { bands: eq.bands.subrange(from, to), ..eq }
}

/// The bands work in a row: an equaliser makes of a block what its last bands make
/// of what its first ones made of it.
pub proof fn bands_work_in_a_row<A: Arithmetic>(
    a: A,
    eq: ParametricEqView,
    block: Seq<Float32>,
    after: ParametricEqView,
    out: Seq<Float32>,
    k: int,
) -> (mid: Seq<Float32>)
    requires
        row_makes(a, eq, block, after, out),
        0 <= k <= eq.bands.len(),
    ensures
        after.bands.len() == eq.bands.len(),
        row_makes(a, some_bands(eq, 0, k), block, some_bands(after, 0, k), mid),
        row_makes(
            a,
            some_bands(eq, k, eq.bands.len() as int),
            mid,
            some_bands(after, k, eq.bands.len() as int),
            out,
        ),
{
    let signals = choose|signals: Seq<Seq<Float32>>| #[trigger]
        row_runs(a, eq, block, signals, after) && signals.last() == out;
    let n = eq.bands.len() as int;
    let first = signals.subrange(0, k + 1);
    let rest = signals.subrange(k, n + 1);
    let eq1 = some_bands(eq, 0, k);
    let eq2 = some_bands(eq, k, n);
    assert forall|b: int| 0 <= b < k implies #[trigger] passes_band(
        a,
        eq1,
        first,
        some_bands(after, 0, k),
        b,
    ) by {
        assert(passes_band(a, eq, signals, after, b));
    }
    assert(row_runs(a, eq1, block, first, some_bands(after, 0, k)));
    assert forall|b: int| 0 <= b < n - k implies #[trigger] passes_band(
        a,
        eq2,
        rest,
        some_bands(after, k, n),
        b,
    ) by {
        assert(passes_band(a, eq, signals, after, k + b));
    }
    assert(row_runs(a, eq2, signals[k], rest, some_bands(after, k, n)));
    assert(first.last() == signals[k]);
    assert(rest.last() == signals.last());
    signals[k]
}

/// What is computed of some factors of a filter says whether it lifts the sound
/// around its frequency.
pub open spec fn tells_lifts<A: Arithmetic>(a: A, response: spec_fn(Coefficients) -> int) -> bool {
    forall|freq: Float32, gain_db: Float32, q: Float32, rate: u32, c: Coefficients| #[trigger]
        call_ensures(A::peaking, (&a, freq, gain_db, q, rate), c) ==> {
            &&& (Float32 { bits: 0 }).less(gain_db) ==> response(c) > 0
            &&& gain_db.less(Float32 { bits: 0 }) ==> response(c) < 0
        }
}

/// A band of positive gain lifts the sound around its frequency, and one of
/// negative gain lowers it.
pub proof fn a_boost_lifts_and_a_cut_lowers<A: Arithmetic>(
    a: A,
    response: spec_fn(Coefficients) -> int,
    spec: EqBandSpec,
    band: EqBandView,
    sample_rate: u32,
    channels: int,
    block: Seq<Float32>,
    course: BandCourse,
    out: Seq<Float32>,
    k: int,
)
    requires
        rests_at_its_target(a),
        tells_lifts(a, response),
        channels > 0,
        has_arrived(band, spec),
        band_runs(a, band, sample_rate, channels, block, course, out),
        0 <= k < course.coefficients.len(),
    ensures
        (Float32 { bits: 0 }).less(spec.gain_db) ==> response(course.coefficients[k]) > 0,
        spec.gain_db.less(Float32 { bits: 0 }) ==> response(course.coefficients[k]) < 0,
{
    let n = block.len() as int / channels;
    lemma_resting(a, band.freq, course.freqs, n);
    lemma_resting(a, band.gain_db, course.gains, n);
    lemma_resting(a, band.q, course.qs, n);
    assert(tuned_at(a, course, sample_rate, n, k));
    let last = least((k + 1) * RECOMPUTE_FRAMES, n) - 1;
    assert(0 <= last < n);
}

/// One step of a gain that goes to a target at one of two speeds.
proof fn lemma_step<A: Arithmetic>(
    a: A,
    from: Float32,
    target: Float32,
    down: Float32,
    up: Float32,
    to: Float32,
    slack: nat,
)
    requires
        !from.nan(),
        !target.nan(),
        glides(
            a,
            from,
            target,
            if target.less(from) {
                down
            } else {
                up
            },
            to,
        ),
        keeps_its_way(a, down),
        keeps_its_way(a, up),
    ensures
        between(from, to, target),
        target.less(from) && nears(a, down, slack) ==> apart(to, target) <= left_after(
            apart(from, target),
            1,
            slack,
        ),
        from.less(target) && nears(a, up, slack) ==> apart(to, target) <= left_after(
            apart(from, target),
            1,
            slack,
        ),
{
}

/// A new limiter is at rest: it goes down within 2 ms and up within 50, lets
/// everything through, and has the ceiling that it was made for.
pub proof fn a_new_limiter_lets_everything_through<A: Arithmetic>(
    a: A,
    ceiling_db: Float32,
    fmt: Format,
    limiter: Limiter,
)
    requires
        limiter_fresh(a, ceiling_db, fmt, limiter),
    ensures
        takes_ms(a, 2, fmt.sample_rate, limiter.attack_coeff),
        takes_ms(a, 50, fmt.sample_rate, limiter.release_coeff),
        limiter.envelope.is_quotient(1, 1),
        !limiter.engaged,
        limiter.ceiling.current == limiter.ceiling.target,
        call_ensures(A::linear, (&a, ceiling_db), limiter.ceiling.target),
        limiter.bypass.mix.current.is_quotient(1, 1),
{
    limiters_take_their_time();
    one_is_one();
}

/// A new output is limited at full scale, which is no decibels at all, and its
/// meter shows nothing yet.
pub proof fn an_output_is_limited_at_full_scale<A: Arithmetic>(a: A, format: Format, bus: Bus)
    requires
        bus_fresh(a, format, bus),
    ensures
        call_ensures(A::linear, (&a, Float32 { bits: 0 }), bus.limiter.ceiling.target),
        bus.limiter.ceiling.current == bus.limiter.ceiling.target,
        bus.limiter.envelope.is_quotient(1, 1),
        bus.limiter.bypass.mix.target.is_quotient(1, 1),
        bus.meter.env.bits == 0,
        bus.meter.clip_hold_left == 0,
{
    one_is_one();
}

/// No frame of a block rises above a ceiling that stands still.
pub open spec fn is_calm(limiter: Limiter, block: Seq<Float32>) -> bool {
    &&& limiter.ceiling.current == limiter.ceiling.target
    &&& forall|f: int|
        0 <= f < block.len() / (limiter.channels as nat) ==> (#[trigger] frame_peak(
            block,
            limiter.channels as int,
            f,
        )).at_most(limiter.ceiling.target)
}

/// A gain that lets everything through.
pub open spec fn all_through() -> Float32 {
    Float32 { bits: 0x3f80_0000 }
}

proof fn lemma_calm_gains<A: Arithmetic>(
    a: A,
    limiter: Limiter,
    block: Seq<Float32>,
    course: LimiterCourse,
    slack: nat,
    n: nat,
    m: int,
)
    requires
        rests_at_its_target(a),
        nears(a, limiter.release_coeff, slack),
        keeps_its_way(a, limiter.attack_coeff),
        limiter.envelope.at_most(all_through()),
        is_calm(limiter, block),
        n == block.len() / (limiter.channels as nat),
        limiting(a, limiter, block, n, course),
        0 <= m <= n,
    ensures
        ({
            let gain = earlier(limiter.envelope, course.gains, m);
            &&& gain.at_most(all_through())
            &&& limiter.envelope.at_most(gain)
            &&& apart(gain, all_through()) <= left_after(
                apart(limiter.envelope, all_through()),
                m,
                slack,
            )
        }),
    decreases m,
{
    if m > 0 {
        lemma_calm_gains(a, limiter, block, course, slack, n, m - 1);
        lemma_resting(a, limiter.ceiling, course.ceilings, n as int);
        assert(limits_at(a, limiter, block, course, m - 1));
        let peak = frame_peak(block, limiter.channels as int, m - 1);
        assert(peak.at_most(limiter.ceiling.target));
        let from = earlier(limiter.envelope, course.gains, m - 1);
        lemma_step(
            a,
            from,
            all_through(),
            limiter.attack_coeff,
            limiter.release_coeff,
            course.gains[m - 1],
            slack,
        );
    }
}

/// A limiter lets go: while nothing rises above the ceiling its gain goes back up
/// to one, as fast as its release of 50 ms lets it, and never down.
pub proof fn a_limiter_lets_go<A: Arithmetic>(
    a: A,
    sample_rate: u32,
    limiter: Limiter,
    block: Seq<Float32>,
    after: Limiter,
    out: Seq<Float32>,
    slack: nat,
)
    requires
        rests_at_its_target(a),
        limiter.channels > 0,
        takes_ms(a, 50, sample_rate, limiter.release_coeff),
        forall|coeff: Float32| #[trigger]
            takes_ms(a, 50, sample_rate, coeff) ==> nears(a, coeff, slack),
        keeps_its_way(a, limiter.attack_coeff),
        limiter.envelope.at_most(all_through()),
        is_calm(limiter, block),
        limited(a, limiter, block, after, out),
    ensures
        after.envelope.at_most(all_through()),
        limiter.envelope.at_most(after.envelope),
        apart(after.envelope, all_through()) <= left_after(
            apart(limiter.envelope, all_through()),
            (block.len() / (limiter.channels as nat)) as int,
            slack,
        ),
        apart(limiter.envelope, all_through()) <= slack && slack <= 10000 ==> !after.engaged,
        after.ceiling == limiter.ceiling,
        after.channels == limiter.channels,
        after.release_coeff == limiter.release_coeff,
        after.attack_coeff == limiter.attack_coeff,
{
    let n = block.len() / (limiter.channels as nat);
    let (course, wet) = choose|course: LimiterCourse, wet: Seq<Float32>|
        {
            &&& #[trigger] limiting(a, limiter, block, n, course)
            &&& #[trigger] scaled(a, block, limiter.channels as int, course.gains, wet)
            &&& crossfades(
                a,
                limiter.bypass.mix,
                block,
                wet,
                limiter.channels as int,
                after.bypass.mix,
                out,
            )
            &&& after == (Limiter {
                ceiling: limiter.ceiling.after(course.ceilings),
                envelope: earlier(limiter.envelope, course.gains, course.gains.len() as int),
                engaged: reduces(course.gains),
                bypass: after.bypass,
                ..limiter
            })
        };
    assert(nears(a, limiter.release_coeff, slack));
    lemma_calm_gains(a, limiter, block, course, slack, n, n as int);
    lemma_resting(a, limiter.ceiling, course.ceilings, n as int);
    if apart(limiter.envelope, all_through()) <= slack && slack <= 10000 {
        assert forall|f: int| 0 <= f < n implies !(#[trigger] course.gains[f]).less(
            Float32 { bits: ENGAGED_BITS },
        ) by {
            lemma_calm_gains(a, limiter, block, course, slack, n, f + 1);
        }
    }
}

/// A limiter runs through some blocks.
pub open spec fn limits_all<A: Arithmetic>(
    a: A,
    states: Seq<Limiter>,
    blocks: Seq<Seq<Float32>>,
    outs: Seq<Seq<Float32>>,
) -> bool {
    &&& states.len() == blocks.len() + 1
    &&& outs.len() == blocks.len()
    &&& forall|i: int|
        0 <= i < blocks.len() ==> limited(
            a,
            states[i],
            #[trigger] blocks[i],
            states[i + 1],
            outs[i],
        )
}

/// How many frames the first `n` blocks have.
pub open spec fn frames_in(blocks: Seq<Seq<Float32>>, channels: nat, n: int) -> int
    decreases n,
{
    if n <= 0 {
        0
    } else {
        frames_in(blocks, channels, n - 1) + blocks[n - 1].len() / channels
    }
}

/// What a limiter did is over some time later: after as many frames at or below
/// the ceiling as its gain had to go, the gain is at one again, and from then on
/// no block is reduced.
pub proof fn a_limiter_is_done_some_time_later<A: Arithmetic>(
    a: A,
    sample_rate: u32,
    states: Seq<Limiter>,
    blocks: Seq<Seq<Float32>>,
    outs: Seq<Seq<Float32>>,
    slack: nat,
    n: int,
)
    requires
        rests_at_its_target(a),
        limits_all(a, states, blocks, outs),
        states[0].channels > 0,
        takes_ms(a, 50, sample_rate, states[0].release_coeff),
        forall|coeff: Float32| #[trigger]
            takes_ms(a, 50, sample_rate, coeff) ==> nears(a, coeff, slack),
        keeps_its_way(a, states[0].attack_coeff),
        states[0].envelope.at_most(all_through()),
        slack <= 10000,
        forall|i: int|
            0 <= i < blocks.len() ==> is_calm(states[0], #[trigger] blocks[i]),
        0 <= n <= blocks.len(),
    ensures
        states[n].ceiling == states[0].ceiling,
        states[n].channels == states[0].channels,
        states[n].release_coeff == states[0].release_coeff,
        states[n].attack_coeff == states[0].attack_coeff,
        states[n].envelope.at_most(all_through()),
        states[0].envelope.at_most(states[n].envelope),
        apart(states[n].envelope, all_through()) <= left_after(
            apart(states[0].envelope, all_through()),
            frames_in(blocks, states[0].channels as nat, n),
            slack,
        ),
        n >= 1 && frames_in(blocks, states[0].channels as nat, n - 1) >= apart(
            states[0].envelope,
            all_through(),
        ) ==> !states[n].engaged,
    decreases n,
{
    if n > 0 {
        a_limiter_is_done_some_time_later(
            a,
            sample_rate,
            states,
            blocks,
            outs,
            slack,
            n - 1,
        );
        let i = n - 1;
        assert(is_calm(states[0], blocks[i]));
        assert(is_calm(states[i], blocks[i]));
        assert(limited(a, states[i], blocks[i], states[i + 1], outs[i]));
        a_limiter_lets_go(
            a,
            sample_rate,
            states[i],
            blocks[i],
            states[i + 1],
            outs[i],
            slack,
        );
    }
}

/// Every frame of a block has the same peak.
pub open spec fn is_steady(block: Seq<Float32>, channels: nat, peak: Float32) -> bool {
    forall|f: int|
        0 <= f < block.len() / channels ==> #[trigger] frame_peak(block, channels as int, f)
            == peak
}

/// The gain that takes a peak to a ceiling.
pub open spec fn takes_to<A: Arithmetic>(
    a: A,
    peak: Float32,
    ceiling: Float32,
    goal: Float32,
) -> bool {
    forall|gain: Float32| #[trigger]
        call_ensures(A::over, (&a, ceiling, peak), gain) ==> gain == goal
}

proof fn lemma_loud_gains<A: Arithmetic>(
    a: A,
    limiter: Limiter,
    block: Seq<Float32>,
    course: LimiterCourse,
    peak: Float32,
    goal: Float32,
    slack: nat,
    n: nat,
    m: int,
)
    requires
        rests_at_its_target(a),
        nears(a, limiter.attack_coeff, slack),
        keeps_its_way(a, limiter.release_coeff),
        limiter.ceiling.current == limiter.ceiling.target,
        limiter.ceiling.target.less(peak),
        (Float32 { bits: LEVEL_FLOOR_BITS }).at_most(peak),
        is_steady(block, limiter.channels as nat, peak),
        takes_to(a, peak, limiter.ceiling.target, goal),
        goal.at_most(limiter.envelope),
        n == block.len() / (limiter.channels as nat),
        limiting(a, limiter, block, n, course),
        0 <= m <= n,
    ensures
        ({
            let gain = earlier(limiter.envelope, course.gains, m);
            &&& between(limiter.envelope, gain, goal)
            &&& apart(gain, goal) <= left_after(apart(limiter.envelope, goal), m, slack)
        }),
    decreases m,
{
    if m > 0 {
        lemma_loud_gains(a, limiter, block, course, peak, goal, slack, n, m - 1);
        lemma_resting(a, limiter.ceiling, course.ceilings, n as int);
        assert(limits_at(a, limiter, block, course, m - 1));
        assert(frame_peak(block, limiter.channels as int, m - 1) == peak);
        assert(floored(peak, Float32 { bits: LEVEL_FLOOR_BITS }) == peak);
        let from = earlier(limiter.envelope, course.gains, m - 1);
        lemma_step(
            a,
            from,
            goal,
            limiter.attack_coeff,
            limiter.release_coeff,
            course.gains[m - 1],
            slack,
        );
    }
}

/// A limiter takes peaks down to its ceiling: while a block stands above the
/// ceiling its gain goes to the one that takes the peak there, as fast as its
/// attack of 2 ms lets it, and that gain is on every channel.
pub proof fn a_limiter_takes_peaks_down<A: Arithmetic>(
    a: A,
    sample_rate: u32,
    limiter: Limiter,
    block: Seq<Float32>,
    after: Limiter,
    out: Seq<Float32>,
    peak: Float32,
    goal: Float32,
    slack: nat,
    i: int,
) -> (gain: Float32)
    requires
        rests_at_its_target(a),
        blends_whole(a),
        limiter.channels > 0,
        limiter.bypass.mix == limiter.bypass.toward(false).mix,
        limiter.bypass.mix.current == limiter.bypass.mix.target,
        takes_ms(a, 2, sample_rate, limiter.attack_coeff),
        forall|coeff: Float32| #[trigger]
            takes_ms(a, 2, sample_rate, coeff) ==> nears(a, coeff, slack),
        keeps_its_way(a, limiter.release_coeff),
        limiter.ceiling.current == limiter.ceiling.target,
        limiter.ceiling.target.less(peak),
        (Float32 { bits: LEVEL_FLOOR_BITS }).at_most(peak),
        is_steady(block, limiter.channels as nat, peak),
        takes_to(a, peak, limiter.ceiling.target, goal),
        goal.at_most(limiter.envelope),
        limited(a, limiter, block, after, out),
        0 <= i < (block.len() / (limiter.channels as nat)) * limiter.channels,
    ensures
        call_ensures(A::times, (&a, block[i], gain), out[i]),
        between(limiter.envelope, gain, goal),
        apart(gain, goal) <= left_after(
            apart(limiter.envelope, goal),
            i / (limiter.channels as int) + 1,
            slack,
        ),
        apart(after.envelope, goal) <= left_after(
            apart(limiter.envelope, goal),
            (block.len() / (limiter.channels as nat)) as int,
            slack,
        ),
        gain.less(Float32 { bits: ENGAGED_BITS }) ==> after.engaged,
{
    let channels = limiter.channels as int;
    let n = block.len() / (limiter.channels as nat);
    let (course, wet) = choose|course: LimiterCourse, wet: Seq<Float32>|
        {
            &&& #[trigger] limiting(a, limiter, block, n, course)
            &&& #[trigger] scaled(a, block, limiter.channels as int, course.gains, wet)
            &&& crossfades(
                a,
                limiter.bypass.mix,
                block,
                wet,
                limiter.channels as int,
                after.bypass.mix,
                out,
            )
            &&& after == (Limiter {
                ceiling: limiter.ceiling.after(course.ceilings),
                envelope: earlier(limiter.envelope, course.gains, course.gains.len() as int),
                engaged: reduces(course.gains),
                bypass: after.bypass,
                ..limiter
            })
        };
    assert(nears(a, limiter.attack_coeff, slack));
    lemma_whole_frames(i, channels, n as int);
    vstd::arithmetic::div_mod::lemma_div_pos_is_pos(i, channels);
    vstd::arithmetic::div_mod::lemma_fundamental_div_mod(block.len() as int, channels);
    assert(n * channels == channels * n) by (nonlinear_arith);
    let f = i / channels;
    lemma_loud_gains(a, limiter, block, course, peak, goal, slack, n, f + 1);
    lemma_loud_gains(a, limiter, block, course, peak, goal, slack, n, n as int);
    a_bypassed_stage_is_not_heard(
        a,
        limiter.bypass,
        false,
        block,
        wet,
        channels,
        after.bypass.mix,
        out,
        i,
    );
    let heard = wet[i];
    course.gains[f]
}

/// A limiter never lifts anything: with a gain of at most one to start from, no
/// gain is above one, as long as dividing by what is larger gives at most one.
pub proof fn a_limiter_never_lifts<A: Arithmetic>(
    a: A,
    limiter: Limiter,
    block: Seq<Float32>,
    n: nat,
    course: LimiterCourse,
    m: int,
)
    requires
        keeps_its_way(a, limiter.attack_coeff),
        keeps_its_way(a, limiter.release_coeff),
        forall|x: Float32, y: Float32, r: Float32|
            x.at_most(y) && #[trigger] call_ensures(A::over, (&a, x, y), r) ==> r.at_most(
                all_through(),
            ),
        limiter.envelope.at_most(all_through()),
        limiting(a, limiter, block, n, course),
        0 <= m <= n,
    ensures
        earlier(limiter.envelope, course.gains, m).at_most(all_through()),
    decreases m,
{
    if m > 0 {
        a_limiter_never_lifts(a, limiter, block, n, course, m - 1);
        assert(limits_at(a, limiter, block, course, m - 1));
        let peak = frame_peak(block, limiter.channels as int, m - 1);
        let from = earlier(limiter.envelope, course.gains, m - 1);
        assert(course.targets[m - 1].at_most(all_through()));
        lemma_step(
            a,
            from,
            course.targets[m - 1],
            limiter.attack_coeff,
            limiter.release_coeff,
            course.gains[m - 1],
            0,
        );
    }
}

/// The level of a group follows its loudest channel: up within 5 ms and down
/// within 100, and nowhere else.
pub proof fn a_level_follows_what_is_heard<A: Arithmetic>(
    a: A,
    sample_rate: u32,
    follower: EnvFollower,
    block: Seq<Float32>,
    channels: nat,
    course: Seq<Float32>,
    peak: Float32,
    slack: nat,
    n: int,
)
    requires
        takes_ms(a, 5, sample_rate, follower.attack),
        takes_ms(a, 100, sample_rate, follower.release),
        keeps_its_way(a, follower.attack),
        keeps_its_way(a, follower.release),
        follower.env.less(peak) ==> forall|coeff: Float32| #[trigger]
            takes_ms(a, 5, sample_rate, coeff) ==> nears(a, coeff, slack),
        peak.less(follower.env) ==> forall|coeff: Float32| #[trigger]
            takes_ms(a, 100, sample_rate, coeff) ==> nears(a, coeff, slack),
        finds(a, follower, block, channels as int, course),
        is_steady(block, channels, peak),
        course.len() == block.len() / channels,
        !follower.env.nan(),
        !peak.nan(),
        0 <= n <= course.len(),
    ensures
        between(follower.env, earlier(follower.env, course, n), peak),
        apart(earlier(follower.env, course, n), peak) <= left_after(
            apart(follower.env, peak),
            n,
            slack,
        ),
    decreases n,
{
    if n > 0 {
        a_level_follows_what_is_heard(
            a,
            sample_rate,
            follower,
            block,
            channels,
            course,
            peak,
            slack,
            n - 1,
        );
        assert(follows_at(a, follower, block, channels as int, course, n - 1));
        assert(frame_peak(block, channels as int, n - 1) == peak);
        let from = earlier(follower.env, course, n - 1);
        assert(glides(
            a,
            from,
            peak,
            if from.less(peak) {
                follower.attack
            } else {
                follower.release
            },
            course[n - 1],
        ));
    }
}

/// A new follower has heard nothing, goes up within 5 ms and down within 100.
pub proof fn a_new_follower_has_heard_nothing<A: Arithmetic>(
    a: A,
    sample_rate: u32,
    follower: EnvFollower,
)
    requires
        follower_fresh(a, sample_rate, follower),
    ensures
        follower.env.bits == 0,
        takes_ms(a, 5, sample_rate, follower.attack),
        takes_ms(a, 100, sample_rate, follower.release),
{
    detectors_take_their_time();
}

/// A ducked gain goes to its target: down as fast as its attack lets it, up as
/// fast as its release does.
pub proof fn a_ducked_gain_gets_there<A: Arithmetic>(
    a: A,
    gain: DuckTargetGain,
    target: Float32,
    course: Seq<Float32>,
    slack: nat,
    n: int,
)
    requires
        ducking(a, gain, target, course),
        keeps_its_way(a, gain.attack_coeff),
        keeps_its_way(a, gain.release_coeff),
        target.less(gain.current) ==> nears(a, gain.attack_coeff, slack),
        gain.current.less(target) ==> nears(a, gain.release_coeff, slack),
        !gain.current.nan(),
        !target.nan(),
        0 <= n <= course.len(),
    ensures
        between(gain.current, earlier(gain.current, course, n), target),
        apart(earlier(gain.current, course, n), target) <= left_after(
            apart(gain.current, target),
            n,
            slack,
        ),
    decreases n,
{
    if n > 0 {
        a_ducked_gain_gets_there(a, gain, target, course, slack, n - 1);
        assert(ducks_at(a, gain, target, course, n - 1));
        let from = earlier(gain.current, course, n - 1);
        lemma_step(
            a,
            from,
            target,
            gain.attack_coeff,
            gain.release_coeff,
            course[n - 1],
            slack,
        );
    }
}

/// The factor that so many decibels down are.
pub open spec fn is_down_by<A: Arithmetic>(a: A, amount_db: Float32, goal: Float32) -> bool {
    forall|factor: Float32| #[trigger]
        call_ensures(A::linear, (&a, amount_db.opposite()), factor) ==> factor == goal
}

/// The gain that a group's ducking goes on from.
pub open spec fn gain_before(running: Option<DuckTargetGain>) -> Float32 {
    match running {
        Some(gain) => gain.current,
        None => all_through(),
    }
}

/// The speeds of a group's ducking are those of its settings.
pub open spec fn is_paced<A: Arithmetic>(
    a: A,
    running: Option<DuckTargetGain>,
    sample_rate: u32,
    duck: DuckSpec,
) -> bool {
    running matches Some(gain) ==> settles_ms(a, duck.attack_ms, sample_rate, gain.attack_coeff)
        && settles_ms(a, duck.release_ms, sample_rate, gain.release_coeff)
}

/// A group is turned down by its amount while its trigger is heard, within its
/// attack, and comes back to its own level when that is over, within its release.
/// Its block has the gains on it.
pub proof fn a_group_is_ducked_by_its_amount<A: Arithmetic>(
    a: A,
    running: Option<DuckTargetGain>,
    sample_rate: u32,
    channels: nat,
    duck: DuckSpec,
    reduced: bool,
    block: Seq<Float32>,
    after: Option<DuckTargetGain>,
    out: Seq<Float32>,
    down: Float32,
    slack: nat,
)
    requires
        channels > 0,
        duck_runs(a, running, sample_rate, channels, duck, reduced, block, after, out),
        is_paced(a, running, sample_rate, duck),
        is_down_by(a, duck.amount_db, down),
        down.at_most(gain_before(running)),
        gain_before(running).at_most(all_through()),
        forall|coeff: Float32| #[trigger]
            settles_ms(a, duck.attack_ms, sample_rate, coeff) ==> keeps_its_way(a, coeff) && (
            reduced ==> nears(a, coeff, slack)),
        forall|coeff: Float32| #[trigger]
            settles_ms(a, duck.release_ms, sample_rate, coeff) ==> keeps_its_way(a, coeff) && (
            !reduced ==> nears(a, coeff, slack)),
    ensures
        after is Some,
        is_paced(a, after, sample_rate, duck),
        ({
            let goal = if reduced {
                down
            } else {
                all_through()
            };
            let start = gain_before(running);
            let frames = (block.len() / channels) as int;
            &&& between(start, after->0.current, goal)
            &&& apart(after->0.current, goal) <= left_after(apart(start, goal), frames, slack)
        }),
{
    let (ready, target) = choose|ready: DuckTargetGain, target: Float32|
        {
            &&& #[trigger] duck_ready(a, running, sample_rate, duck, ready)
            &&& #[trigger] duck_goal(a, duck, reduced, target)
            &&& ducks_from(a, ready, target, channels, block, after->Some_0, out)
        };
    let course = choose|course: Seq<Float32>| #[trigger]
        ducking(a, ready, target, course) && {
            &&& course.len() == block.len() / channels
            &&& after->Some_0 == ducked_by(ready, course)
            &&& scaled(a, block, channels as int, course, out)
        };
    assert(settles_ms(a, duck.attack_ms, sample_rate, ready.attack_coeff));
    assert(settles_ms(a, duck.release_ms, sample_rate, ready.release_coeff));
    assert(ready.current == gain_before(running));
    a_ducked_gain_gets_there(a, ready, target, course, slack, course.len() as int);
}

/// How far a group is ducked is what its ducking is set to, once it is there: where
/// the gain has arrived at the factor of its amount it stays there, and the depth
/// that is shown is the amount.
pub proof fn the_depth_is_the_amount<A: Arithmetic>(
    a: A,
    gain: DuckTargetGain,
    sample_rate: u32,
    channels: nat,
    duck: DuckSpec,
    block: Seq<Float32>,
    after: Option<DuckTargetGain>,
    out: Seq<Float32>,
    down: Float32,
    level: Float32,
)
    requires
        channels > 0,
        rests_at_its_target(a),
        duck_runs(a, Some(gain), sample_rate, channels, duck, true, block, after, out),
        is_down_by(a, duck.amount_db, down),
        gain.current == down,
        (Float32 { bits: LEVEL_FLOOR_BITS }).at_most(down),
        forall|db: Float32| #[trigger]
            call_ensures(A::decibels, (&a, down), db) ==> db == duck.amount_db.opposite(),
        after is Some,
        call_ensures(
            A::decibels,
            (&a, floored(after->0.current, Float32 { bits: LEVEL_FLOOR_BITS })),
            level,
        ),
    ensures
        after->0.current == down,
        level.opposite() == duck.amount_db,
{
    let (ready, target) = choose|ready: DuckTargetGain, target: Float32|
        {
            &&& #[trigger] duck_ready(a, Some(gain), sample_rate, duck, ready)
            &&& #[trigger] duck_goal(a, duck, true, target)
            &&& ducks_from(a, ready, target, channels, block, after->Some_0, out)
        };
    let course = choose|course: Seq<Float32>| #[trigger]
        ducking(a, ready, target, course) && {
            &&& course.len() == block.len() / channels
            &&& after->Some_0 == ducked_by(ready, course)
            &&& scaled(a, block, channels as int, course, out)
        };
    lemma_ducked_rests(a, ready, target, course, course.len() as int);
}

proof fn lemma_ducked_rests<A: Arithmetic>(
    a: A,
    gain: DuckTargetGain,
    target: Float32,
    course: Seq<Float32>,
    n: int,
)
    requires
        rests_at_its_target(a),
        gain.current == target,
        ducking(a, gain, target, course),
        0 <= n <= course.len(),
    ensures
        earlier(gain.current, course, n) == target,
    decreases n,
{
    if n > 0 {
        lemma_ducked_rests(a, gain, target, course, n - 1);
        assert(ducks_at(a, gain, target, course, n - 1));
    }
}

/// How loud the trigger has to be says nothing about how far a group is ducked:
/// two settings that differ in the threshold alone duck alike.
pub proof fn a_threshold_does_not_change_the_amount<A: Arithmetic>(
    a: A,
    running: Option<DuckTargetGain>,
    sample_rate: u32,
    channels: nat,
    duck: DuckSpec,
    threshold_db: Float32,
    reduced: bool,
    block: Seq<Float32>,
    after: Option<DuckTargetGain>,
    out: Seq<Float32>,
)
    requires
        duck_runs(a, running, sample_rate, channels, duck, reduced, block, after, out),
    ensures
        duck_runs(
            a,
            running,
            sample_rate,
            channels,
            DuckSpec { threshold_db, ..duck },
            reduced,
            block,
            after,
            out,
        ),
{
    let other = DuckSpec { threshold_db, ..duck };
    let (ready, target) = choose|ready: DuckTargetGain, target: Float32|
        {
            &&& #[trigger] duck_ready(a, running, sample_rate, duck, ready)
            &&& #[trigger] duck_goal(a, duck, reduced, target)
            &&& ducks_from(a, ready, target, channels, block, after->Some_0, out)
        };
    assert(duck_ready(a, running, sample_rate, other, ready));
    assert(duck_goal(a, other, reduced, target));
}

/// A larger amount ducks further.
pub proof fn a_larger_amount_ducks_further<A: Arithmetic>(
    a: A,
    less: DuckSpec,
    more: DuckSpec,
    high: Float32,
    low: Float32,
)
    requires
        less.amount_db.less(more.amount_db),
        forall|x: Float32, y: Float32, r: Float32, s: Float32|
            x.less(y) && #[trigger] call_ensures(A::linear, (&a, x), r)
                && #[trigger] call_ensures(A::linear, (&a, y), s) ==> r.less(s),
        duck_goal(a, less, true, high),
        duck_goal(a, more, true, low),
    ensures
        low.less(high),
{
    assert(more.amount_db.opposite().less(less.amount_db.opposite()));
}

/// The trigger of a ducking is louder than its threshold, and can be heard.
pub open spec fn is_triggered<M: Machine>(
    desk: Desk<M>,
    groups: Seq<GroupView<Float32>>,
    duck: DuckSpec,
) -> bool {
    exists|t: int|
        {
            &&& 0 <= t < groups.len()
            &&& (#[trigger] groups[t]).id == duck.trigger
            &&& forall|s: int| 0 <= s < t ==> (#[trigger] groups[s]).id != duck.trigger
            &&& t < desk.strips@.len()
            &&& duck.threshold_db.less(desk.strips@[t].level_db)
            &&& !groups[t].mute
            &&& groups[t].solo || forall|s: int|
                0 <= s < groups.len() ==> !(#[trigger] groups[s]).solo
        }
}

/// A group is ducked while its trigger is louder than the threshold and can be
/// heard, and at no other time.
pub proof fn a_group_ducks_under_a_loud_trigger<M: Machine>(
    desk: Desk<M>,
    groups: Seq<GroupView<Float32>>,
    i: int,
    duck: DuckSpec,
    reduced: bool,
)
    requires
        groups.len() <= usize::MAX,
        groups[i].duck == Some(duck),
        told_to_duck(desk, groups, i, duck.threshold_db, reduced),
    ensures
        reduced <==> is_triggered(desk, groups, duck),
{
    lemma_group_at(groups, duck.trigger, 0);
    lemma_first_of_id(groups, duck.trigger, 0);
    match duck_trigger(groups, i) {
        Some(t) => {
            assert(groups[t].id == duck.trigger);
            let at = t as usize;
            assert(at as int == t);
        },
        None => {},
    }
}

/// On every tick the block of a ducked group goes down while its trigger is louder
/// than the group's own threshold, and up again while it is not.
pub proof fn a_block_goes_down_while_its_trigger_is_loud<M: Machine>(
    desk: Desk<M>,
    groups: Seq<GroupView<Float32>>,
    i: int,
    duck: DuckSpec,
    blocks: Seq<Seq<Float32>>,
    after: Desk<M>,
    then: Seq<Seq<Float32>>,
)
    requires
        groups.len() <= usize::MAX,
        groups[i].duck == Some(duck),
        duck_step(desk, groups, i, blocks, after, then),
    ensures
        ducks(
            desk,
            i as usize,
            duck,
            is_triggered(desk, groups, duck),
            blocks[i],
            after,
            then[i],
        ),
{
    let reduced = choose|reduced: bool| #[trigger]
        told_to_duck(desk, groups, i, duck.threshold_db, reduced) && ducks(
            desk,
            i as usize,
            duck,
            reduced,
            blocks[i],
            after,
            then[i],
        );
    a_group_ducks_under_a_loud_trigger(desk, groups, i, duck, reduced);
}

proof fn lemma_first_of_id(groups: Seq<GroupView<Float32>>, id: GroupId, from: int)
    requires
        0 <= from,
    ensures
        match group_at(groups, id, from) {
            Some(t) => from <= t < groups.len() && groups[t].id == id && forall|s: int|
                from <= s < t ==> (#[trigger] groups[s]).id != id,
            None => forall|s: int| from <= s < groups.len() ==> (#[trigger] groups[s]).id != id,
        },
    decreases groups.len() - from,
{
    if from < groups.len() && groups[from].id != id {
        lemma_first_of_id(groups, id, from + 1);
    }
}

/// The peak of a frame is that of its loudest channel.
pub proof fn a_frame_is_as_loud_as_its_loudest_channel(
    block: Seq<Float32>,
    channels: int,
    f: int,
    c: int,
)
    requires
        0 <= c < channels,
        !block[f * channels + c].nan(),
    ensures
        frame_peak(block, channels, f).bits < 0x8000_0000,
        !frame_peak(block, channels, f).nan(),
        frame_peak(block, channels, f).rank() >= block[f * channels + c].magnitude(),
        frame_peak(block, channels, f).bits == 0 || exists|d: int|
            0 <= d < channels && frame_peak(block, channels, f).rank() == (
            #[trigger] block[f * channels + d]).magnitude(),
{
    lemma_greatest_of(block, f * channels, channels, c);
}

proof fn lemma_greatest_of(block: Seq<Float32>, start: int, n: int, c: int)
    requires
        0 <= c,
        c < n ==> !block[start + c].nan(),
    ensures
        0 <= greatest(block, start, n) <= 0x7f80_0000,
        c < n ==> greatest(block, start, n) >= block[start + c].magnitude(),
        greatest(block, start, n) == 0 || exists|d: int|
            0 <= d < n && greatest(block, start, n) == (#[trigger] block[start + d]).magnitude(),
    decreases n,
{
    if n > 0 {
        if c < n - 1 {
            lemma_greatest_of(block, start, n - 1, c);
        } else {
            lemma_greatest_of(block, start, n - 1, n);
        }
        assert(block[start + (n - 1)] == block[start + n - 1]);
    }
}

/// A sample at full scale lights the clip of its meter for the whole hold, in whatever
/// frame and channel it is; where no sample reaches it, the hold runs down.
pub proof fn a_sample_at_full_scale_lights_the_clip<A: Arithmetic>(
    a: A,
    before: PeakMeter,
    block: Seq<Float32>,
    channels: int,
    after: PeakMeter,
    f: int,
    c: int,
)
    requires
        channels > 0,
        observes(a, before, block, channels, after),
        0 <= f < block.len() as int / channels,
        0 <= c < channels,
    ensures
        all_through().magnitude() <= block[f * channels + c].magnitude() <= 0x7f80_0000
            ==> after.clip_hold_left == before.clip_hold_frames,
        (forall|i: int|
            0 <= i < block.len() ==> (#[trigger] block[i]).magnitude() < all_through().magnitude())
            ==> after.clip_hold_left <= before.clip_hold_left,
{
    let n = block.len() as int / channels;
    let peak = frame_peak(block, channels, f);
    if all_through().magnitude() <= block[f * channels + c].magnitude() <= 0x7f80_0000 {
        lemma_greatest_of(block, f * channels, channels, c);
        assert(peak.bits >= all_through().bits);
        assert(clips(block, channels, n));
    }
    if forall|i: int|
        0 <= i < block.len() ==> (#[trigger] block[i]).magnitude() < all_through().magnitude() {
        assert forall|g: int| 0 <= g < n implies (#[trigger] frame_peak(block, channels, g)).bits
            < all_through().bits by {
            assert(g * channels >= 0 && g * channels + channels <= block.len()) by (nonlinear_arith)
                requires
                    0 <= g < n,
                    n == block.len() as int / channels,
                    channels > 0,
            ;
            lemma_greatest_below(block, g * channels, channels);
        }
        assert(!clips(block, channels, n));
    }
}

proof fn lemma_greatest_below(block: Seq<Float32>, start: int, n: int)
    requires
        0 <= start,
        start + n <= block.len(),
        forall|i: int|
            0 <= i < block.len() ==> (#[trigger] block[i]).magnitude() < all_through().magnitude(),
    ensures
        0 <= greatest(block, start, n) < all_through().magnitude(),
    decreases n,
{
    if n > 0 {
        lemma_greatest_below(block, start, n - 1);
        assert(block[start + n - 1].magnitude() < all_through().magnitude());
    }
}

/// What is shown of a group or an output is what its own meter reads: its level, and a
/// clip as long as one is held.
pub proof fn a_reading_is_of_its_own_meter<M: Machine>(
    mixer: Mixer<Float32>,
    desk: Desk<M>,
    i: int,
    group: MeterLevel,
    o: int,
    output: MeterLevel,
)
    requires
        group_at(mixer.model().groups, mixer.model().groups[i].id, 0) == Some(i),
        i < desk.strips@.len(),
        call_ensures(
            Mixer::<Float32>::group_peak::<M>,
            (&mixer, &desk, mixer.model().groups[i].id),
            group,
        ),
        output_at(mixer.model().outputs, mixer.model().outputs[o].id, 0) == Some(o),
        o < desk.buses@.len(),
        call_ensures(
            Mixer::<Float32>::output_peak::<M>,
            (&mixer, &desk, mixer.model().outputs[o].id),
            output,
        ),
    ensures
        group.peak == desk.strips@[i].meter.env,
        group.clipped <==> desk.strips@[i].meter.clip_hold_left != 0,
        output.peak == desk.buses@[o].meter.env,
        output.clipped <==> desk.buses@[o].meter.clip_hold_left != 0,
{
}

} // verus!
