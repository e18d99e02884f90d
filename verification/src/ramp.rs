//! Numbers that move with time: gains, levels and fades.
//!
//! Nothing that is heard changes at once, since a step is a click. A number
//! goes to its target a share of the way with each frame, however many channels
//! the frame has. What decides here is which target a number goes to, how fast,
//! and which samples it is laid on; the arithmetic itself is asked for.
use crate::float::Float32;
use crate::numbers::{one_is_one, settings_take_ten_milliseconds};
use vstd::prelude::*;

verus! {

/// 1.0
pub const ONE_BITS: u32 = 0x3f80_0000;

/// 1000.0
pub const THOUSAND_BITS: u32 = 0x447a_0000;

/// 0.000001: levels and gains below this are not told apart.
pub const LEVEL_FLOOR_BITS: u32 = 0x3586_37bd;

/// 0.01 s, the time that every audible setting takes to move.
pub const SETTING_TIME_BITS: u32 = 0x3c23_d70a;

/// 5 ms and 100 ms, how fast a level is found to rise and to fall.
pub const DETECT_ATTACK_BITS: u32 = 0x40a0_0000;

pub const DETECT_RELEASE_BITS: u32 = 0x42c8_0000;

/// The factors of a filter with two poles and two zeros.
#[derive(Debug, Clone, Copy)]
pub struct Coefficients {
    pub b0: Float32,
    pub b1: Float32,
    pub b2: Float32,
    pub a1: Float32,
    pub a2: Float32,
}

/// What such a filter remembers of the samples before.
#[derive(Debug, Clone, Copy)]
pub struct Memory {
    pub z1: Float32,
    pub z2: Float32,
}

/// The arithmetic on numbers that is asked for.
pub trait Arithmetic {
    /// A number on its way to a target, one frame on:
    /// `target + coeff * (current - target)`.
    fn glide(&self, current: Float32, target: Float32, coeff: Float32) -> Float32;

    /// `a + b`
    fn plus(&self, a: Float32, b: Float32) -> Float32;

    /// `a - b`
    fn minus(&self, a: Float32, b: Float32) -> Float32;

    /// `a * b`
    fn times(&self, a: Float32, b: Float32) -> Float32;

    /// `a / b`
    fn over(&self, a: Float32, b: Float32) -> Float32;

    /// `dry + mix * (wet - dry)`
    fn blend(&self, dry: Float32, wet: Float32, mix: Float32) -> Float32;

    /// What is left of a distance after one frame, where a time constant in
    /// seconds says how fast it shrinks.
    fn settling(&self, seconds: Float32, sample_rate: u32) -> Float32;

    /// What is left of a level after so many frames without a sound:
    /// `level * coeff.powi(frames)`.
    fn decay(&self, level: Float32, coeff: Float32, frames: usize) -> Float32;

    /// The factor that so many decibels are.
    fn linear(&self, decibels: Float32) -> Float32;

    /// The decibels that a factor is.
    fn decibels(&self, linear: Float32) -> Float32;

    /// The factors of a filter that lifts or lowers the sound around a
    /// frequency.
    fn peaking(&self, freq_hz: Float32, gain_db: Float32, q: Float32, sample_rate: u32) -> Coefficients;

    /// One sample through a filter, and what the filter remembers then.
    fn filter(&self, coefficients: Coefficients, memory: Memory, x: Float32) -> (Memory, Float32);
}

/// [`Arithmetic::glide`] can answer with `to`.
pub open spec fn glides<A: Arithmetic>(
    a: A,
    from: Float32,
    target: Float32,
    coeff: Float32,
    to: Float32,
) -> bool {
    call_ensures(A::glide, (&a, from, target, coeff), to)
}

/// The number before frame `f` of a course that begins at `start`.
pub open spec fn earlier(start: Float32, course: Seq<Float32>, f: int) -> Float32 {
    if f <= 0 {
        start
    } else {
        course[f - 1]
    }
}

/// A number on its way to a target.
#[derive(Debug, Clone, Copy)]
pub struct Smoothed {
    pub current: Float32,
    pub target: Float32,
    /// What is left of the way after one frame.
    pub coeff: Float32,
}

/// Frame `f` of a course: one step of the ramp.
pub open spec fn ramps_at<A: Arithmetic>(a: A, ramp: Smoothed, course: Seq<Float32>, f: int) -> bool {
    glides(a, earlier(ramp.current, course, f), ramp.target, ramp.coeff, course[f])
}

/// A ramp can run through these numbers, one for each frame.
pub open spec fn ramps<A: Arithmetic>(a: A, ramp: Smoothed, course: Seq<Float32>) -> bool {
    forall|f: int| 0 <= f < course.len() ==> #[trigger] ramps_at(a, ramp, course, f)
}

/// A ramp that rests at a number, and moves as fast as audible settings do.
pub open spec fn at_rest<A: Arithmetic>(
    a: A,
    number: Float32,
    sample_rate: u32,
    ramp: Smoothed,
) -> bool {
    &&& ramp.current == number
    &&& ramp.target == number
    &&& call_ensures(
        A::settling,
        (&a, Float32 { bits: SETTING_TIME_BITS }, sample_rate),
        ramp.coeff,
    )
}

impl Smoothed {
    /// The ramp where a course has left it.
    pub open spec fn after(self, course: Seq<Float32>) -> Smoothed {
        Smoothed { current: earlier(self.current, course, course.len() as int), ..self }
    }

    /// The ramp with another target.
    pub open spec fn toward(self, target: Float32) -> Smoothed {
        Smoothed { target, ..self }
    }

    pub fn new<A: Arithmetic>(a: &A, initial: Float32, sample_rate: u32) -> (r: Smoothed)
        ensures
            at_rest(*a, initial, sample_rate, r),
    {
        let coeff = a.settling(Float32 { bits: SETTING_TIME_BITS }, sample_rate);
        Smoothed { current: initial, target: initial, coeff }
    }

    pub fn set_target(&mut self, target: Float32)
        ensures
            *final(self) == old(self).toward(target),
    {
        self.target = target;
    }

    /// One frame on.
    pub fn next<A: Arithmetic>(&mut self, a: &A) -> (r: Float32)
        ensures
            glides(*a, old(self).current, old(self).target, old(self).coeff, r),
            *final(self) == (Smoothed { current: r, ..*old(self) }),
    {
        self.current = a.glide(self.current, self.target, self.coeff);
        self.current
    }
}

impl Smoothed {
    /// So many frames on.
    pub fn advance<A: Arithmetic>(&mut self, a: &A, frames: usize)
        ensures
            exists|course: Seq<Float32>| #[trigger]
                ramps(*a, *old(self), course) && course.len() == frames && *final(self) == old(
                    self).after(course),
    {
        let ghost first = *self;
        let ghost mut course: Seq<Float32> = Seq::empty();
        let mut f: usize = 0;
        while f < frames
            invariant
                f <= frames,
                course.len() == f,
                ramps(*a, first, course),
                *self == first.after(course),
            decreases frames - f,
        {
            let to: Float32 = self.next(a);
            proof {
                lemma_ramps_push(*a, first, course, to);
                course = course.push(to);
            }
            f = f + 1;
        }
    }
}

/// One frame more on a course.
pub proof fn lemma_ramps_push<A: Arithmetic>(a: A, ramp: Smoothed, course: Seq<Float32>, to: Float32)
    requires
        ramps(a, ramp, course),
        glides(a, ramp.after(course).current, ramp.target, ramp.coeff, to),
    ensures
        ramps(a, ramp, course.push(to)),
        ramp.after(course.push(to)).current == to,
{
    let longer = course.push(to);
    assert forall|f: int| 0 <= f < longer.len() implies #[trigger] ramps_at(a, ramp, longer, f) by {
        if f < course.len() {
            assert(ramps_at(a, ramp, course, f));
        }
    }
}

/// Two courses, one after the other.
pub proof fn lemma_ramps_add<A: Arithmetic>(
    a: A,
    ramp: Smoothed,
    course: Seq<Float32>,
    more: Seq<Float32>,
)
    requires
        ramps(a, ramp, course),
        ramps(a, ramp.after(course), more),
    ensures
        ramps(a, ramp, course + more),
        ramp.after(course + more) == ramp.after(course).after(more),
{
    let whole = course + more;
    assert forall|f: int| 0 <= f < whole.len() implies #[trigger] ramps_at(a, ramp, whole, f) by {
        if f < course.len() {
            assert(ramps_at(a, ramp, course, f));
        } else {
            assert(ramps_at(a, ramp.after(course), more, f - course.len()));
        }
    }
}

/// The sample at `i` belongs to the frame that its position says.
pub proof fn lemma_frame_of(i: int, channels: int, f: int)
    requires
        channels > 0,
        f * channels <= i < f * channels + channels,
    ensures
        i / channels == f,
{
    assert(f * channels == channels * f) by (nonlinear_arith);
    vstd::arithmetic::div_mod::lemma_fundamental_div_mod_converse(
        i,
        channels,
        f,
        i - f * channels,
    );
}

/// A sample lies in a whole frame exactly when its frame is one of them.
pub proof fn lemma_whole_frames(i: int, channels: int, n: int)
    requires
        channels > 0,
        0 <= i,
        0 <= n,
    ensures
        i / channels < n <==> i < n * channels,
{
    vstd::arithmetic::div_mod::lemma_fundamental_div_mod(i, channels);
    let f = i / channels;
    assert(f < n ==> channels * f + channels <= n * channels) by (nonlinear_arith)
        requires
            channels > 0,
    ;
    assert(f >= n ==> channels * f >= n * channels) by (nonlinear_arith)
        requires
            channels > 0,
    ;
}

/// How many whole frames a block has.
pub fn frames_of(len: usize, channels: usize) -> (r: usize)
    requires
        channels > 0,
    ensures
        r == len as nat / channels as nat,
        r * channels <= len,
{
    let frames: usize = len / channels;
    proof {
        vstd::arithmetic::div_mod::lemma_fundamental_div_mod(len as int, channels as int);
        assert(frames * channels <= len) by (nonlinear_arith)
            requires
                len == channels * frames + len % channels,
                len % channels >= 0,
        ;
    }
    frames
}

/// Every whole frame of a block times its factor. What is left over of a frame
/// stays as it is.
pub open spec fn scaled<A: Arithmetic>(
    a: A,
    block: Seq<Float32>,
    channels: int,
    factors: Seq<Float32>,
    out: Seq<Float32>,
) -> bool {
    &&& out.len() == block.len()
    &&& forall|i: int|
        0 <= i < out.len() ==> if i / channels < factors.len() {
            call_ensures(A::times, (&a, block[i], factors[i / channels]), #[trigger] out[i])
        } else {
            out[i] == block[i]
        }
}

/// Lays a factor on frame `f`.
pub fn scale_frame<A: Arithmetic>(
    a: &A,
    block: &mut Vec<Float32>,
    channels: usize,
    f: usize,
    factor: Float32,
)
    requires
        (f + 1) * channels <= old(block)@.len(),
    ensures
        final(block)@.len() == old(block)@.len(),
        forall|i: int|
            0 <= i < final(block)@.len() ==> if f * channels <= i < (f + 1) * channels {
                call_ensures(A::times, (a, old(block)@[i], factor), #[trigger] final(block)@[i])
            } else {
                final(block)@[i] == old(block)@[i]
            },
{
    let total: usize = block.len();
    assert((f + 1) * channels == f * channels + channels) by (nonlinear_arith);
    let start: usize = f * channels;
    let mut c: usize = 0;
    while c < channels
        invariant
            c <= channels,
            start + channels <= total == block@.len() == old(block)@.len(),
            forall|i: int|
                0 <= i < block@.len() ==> if start <= i < start + c {
                    call_ensures(A::times, (a, old(block)@[i], factor), #[trigger] block@[i])
                } else {
                    block@[i] == old(block)@[i]
                },
        decreases channels - c,
    {
        let x: Float32 = block[start + c];
        let y: Float32 = a.times(x, factor);
        block.set(start + c, y);
        c = c + 1;
    }
}

/// Without factors a block stays as it is.
pub proof fn lemma_unscaled<A: Arithmetic>(a: A, block: Seq<Float32>, channels: int)
    requires
        channels > 0,
    ensures
        scaled(a, block, channels, Seq::empty(), block),
{
    assert forall|i: int| 0 <= i < block.len() implies i / channels >= 0 && #[trigger] block[i]
        == block[i] by {
        vstd::arithmetic::div_mod::lemma_div_pos_is_pos(i, channels);
    }
}

/// One frame more of a block that is scaled frame by frame.
pub proof fn lemma_scaled_push<A: Arithmetic>(
    a: A,
    block: Seq<Float32>,
    channels: int,
    factors: Seq<Float32>,
    out: Seq<Float32>,
    factor: Float32,
    next: Seq<Float32>,
)
    requires
        channels > 0,
        (factors.len() + 1) * channels <= block.len(),
        scaled(a, block, channels, factors, out),
        next.len() == out.len(),
        forall|i: int|
            0 <= i < next.len() ==> if factors.len() * channels <= i < (factors.len() + 1)
                * channels {
                call_ensures(A::times, (&a, out[i], factor), #[trigger] next[i])
            } else {
                next[i] == out[i]
            },
    ensures
        scaled(a, block, channels, factors.push(factor), next),
{
    let f = factors.len() as int;
    let longer = factors.push(factor);
    assert((f + 1) * channels == f * channels + channels) by (nonlinear_arith);
    assert forall|i: int| 0 <= i < next.len() implies if i / channels < longer.len() {
        call_ensures(A::times, (&a, block[i], longer[i / channels]), #[trigger] next[i])
    } else {
        next[i] == block[i]
    } by {
        lemma_whole_frames(i, channels, f);
        lemma_whole_frames(i, channels, f + 1);
        vstd::arithmetic::div_mod::lemma_div_pos_is_pos(i, channels);
        assert(out[i] == out[i]);
        if f * channels <= i < (f + 1) * channels {
            lemma_frame_of(i, channels, f);
        }
    }
}

/// All samples of a frame have the same gain on them, whatever channels they
/// are of.
pub proof fn a_frame_has_one_gain<A: Arithmetic>(
    a: A,
    block: Seq<Float32>,
    channels: int,
    factors: Seq<Float32>,
    out: Seq<Float32>,
    i: int,
    j: int,
)
    requires
        channels > 0,
        scaled(a, block, channels, factors, out),
        0 <= i < block.len(),
        0 <= j < block.len(),
        i / channels == j / channels,
        i / channels < factors.len(),
    ensures
        exists|gain: Float32|
            #[trigger] call_ensures(A::times, (&a, block[i], gain), out[i]) && call_ensures(
                A::times,
                (&a, block[j], gain),
                out[j],
            ),
{
    let gain = factors[i / channels];
    assert(call_ensures(A::times, (&a, block[i], gain), out[i]));
    assert(call_ensures(A::times, (&a, block[j], gain), out[j]));
}

/// A fade between what goes into a stage and what comes out of it can give
/// `out`: one step of the mix for each frame.
pub open spec fn crossfades<A: Arithmetic>(
    a: A,
    mix: Smoothed,
    dry: Seq<Float32>,
    wet: Seq<Float32>,
    channels: int,
    after: Smoothed,
    out: Seq<Float32>,
) -> bool {
    exists|course: Seq<Float32>| #[trigger]
        ramps(a, mix, course) && {
            &&& course.len() == wet.len() as int / channels
            &&& after == mix.after(course)
            &&& out.len() == wet.len()
            &&& forall|i: int|
                0 <= i < out.len() ==> if i / channels < course.len() {
                    call_ensures(
                        A::blend,
                        (&a, dry[i], wet[i], course[i / channels]),
                        #[trigger] out[i],
                    )
                } else {
                    out[i] == wet[i]
                }
        }
}

/// Fades between the sound before a stage and the sound after it, so that a
/// stage can be passed over without a click. The stage itself keeps running.
#[derive(Debug, Clone, Copy)]
pub struct BypassRamp {
    /// How much of the stage is heard: all of it at one, none at zero.
    pub mix: Smoothed,
}

/// The mix that a stage goes to.
pub open spec fn share(bypassed: bool) -> Float32 {
    if bypassed {
        Float32 { bits: 0 }
    } else {
        Float32 { bits: ONE_BITS }
    }
}

impl BypassRamp {
    /// The fade on its way out, or back in.
    pub open spec fn toward(self, bypassed: bool) -> BypassRamp {
        BypassRamp { mix: self.mix.toward(share(bypassed)) }
    }

    /// All of the stage is heard.
    pub fn new<A: Arithmetic>(a: &A, sample_rate: u32) -> (r: BypassRamp)
        ensures
            at_rest(*a, share(false), sample_rate, r.mix),
    {
        BypassRamp { mix: Smoothed::new(a, Float32 { bits: ONE_BITS }, sample_rate) }
    }

    pub fn set_bypassed(&mut self, bypassed: bool)
        ensures
            *final(self) == old(self).toward(bypassed),
    {
        let target = if bypassed {
            Float32 { bits: 0 }
        } else {
            Float32 { bits: ONE_BITS }
        };
        self.mix.set_target(target);
    }

    /// Mixes a block with what it was before the stage.
    pub fn crossfade<A: Arithmetic>(
        &mut self,
        a: &A,
        dry: &Vec<Float32>,
        block: &mut Vec<Float32>,
        channels: usize,
    )
        requires
            channels > 0,
            dry@.len() == old(block)@.len(),
        ensures
            crossfades(
                *a,
                old(self).mix,
                dry@,
                old(block)@,
                channels as int,
                final(self).mix,
                final(block)@,
            ),
    {
        let ghost first = self.mix;
        let ghost wet = block@;
        let ghost mut course: Seq<Float32> = Seq::empty();
        let total: usize = block.len();
        let frames: usize = frames_of(total, channels);
        let mut f: usize = 0;
        while f < frames
            invariant
                f <= frames,
                channels > 0,
                frames * channels <= total == block@.len() == wet.len() == dry@.len(),
                course.len() == f,
                ramps(*a, first, course),
                self.mix == first.after(course),
                forall|i: int|
                    0 <= i < block@.len() ==> if i / (channels as int) < course.len() {
                        call_ensures(
                            A::blend,
                            (a, dry@[i], wet[i], course[i / (channels as int)]),
                            #[trigger] block@[i],
                        )
                    } else {
                        block@[i] == wet[i]
                    },
            decreases frames - f,
        {
            assert((f + 1) * channels <= frames * channels && (f + 1) * channels == f * channels
                + channels) by (nonlinear_arith)
                requires
                    f < frames,
            ;
            let ghost so_far = block@;
            let start: usize = f * channels;
            assert forall|i: int| start <= i < start + channels implies so_far[i] == wet[i] by {
                lemma_frame_of(i, channels as int, f as int);
                assert(block@[i] == so_far[i]);
            }
            let m: Float32 = self.mix.next(a);
            proof {
                lemma_ramps_push(*a, first, course, m);
                course = course.push(m);
            }
            let mut c: usize = 0;
            while c < channels
                invariant
                    c <= channels,
                    start + channels <= total == block@.len() == wet.len() == dry@.len(),
                    so_far.len() == total,
                    forall|i: int| start <= i < start + channels ==> so_far[i] == wet[i],
                    forall|i: int|
                        0 <= i < block@.len() ==> if start <= i < start + c {
                            call_ensures(A::blend, (a, dry@[i], wet[i], m), #[trigger] block@[i])
                        } else {
                            block@[i] == so_far[i]
                        },
                decreases channels - c,
            {
                let y: Float32 = a.blend(dry[start + c], block[start + c], m);
                block.set(start + c, y);
                c = c + 1;
            }
            f = f + 1;
            assert forall|i: int| 0 <= i < block@.len() implies if i / (channels as int)
                < course.len() {
                call_ensures(
                    A::blend,
                    (a, dry@[i], wet[i], course[i / (channels as int)]),
                    #[trigger] block@[i],
                )
            } else {
                block@[i] == wet[i]
            } by {
                lemma_whole_frames(i, channels as int, f - 1);
                lemma_whole_frames(i, channels as int, f as int);
                vstd::arithmetic::div_mod::lemma_div_pos_is_pos(i, channels as int);
                assert(so_far[i] == so_far[i]);
                if start <= i < start + channels {
                    lemma_frame_of(i, channels as int, f - 1);
                }
            }
        }
    }
}

/// A coefficient for a time constant in milliseconds.
pub open spec fn settles_ms<A: Arithmetic>(
    a: A,
    ms: Float32,
    sample_rate: u32,
    coeff: Float32,
) -> bool {
    exists|seconds: Float32|
        call_ensures(A::over, (&a, ms, Float32 { bits: THOUSAND_BITS }), seconds)
            && #[trigger] call_ensures(A::settling, (&a, seconds, sample_rate), coeff)
}

pub fn settling_ms<A: Arithmetic>(a: &A, ms: Float32, sample_rate: u32) -> (r: Float32)
    ensures
        settles_ms(*a, ms, sample_rate, r),
{
    let seconds = a.over(ms, Float32 { bits: THOUSAND_BITS });
    a.settling(seconds, sample_rate)
}

/// The number, or the floor where it is lower or not a number.
pub open spec fn floored(x: Float32, floor: Float32) -> Float32 {
    if floor.at_most(x) {
        x
    } else {
        floor
    }
}

pub fn at_least(x: Float32, floor: Float32) -> (r: Float32)
    ensures
        r == floored(x, floor),
{
    if floor.is_at_most(x) {
        x
    } else {
        floor
    }
}

/// Arithmetic on which a number that is where it goes to stays there.
pub open spec fn rests_at_its_target<A: Arithmetic>(a: A) -> bool {
    forall|x: Float32, coeff: Float32, r: Float32| #[trigger]
        glides(a, x, x, coeff, r) ==> r == x
}

pub(crate) proof fn lemma_resting<A: Arithmetic>(
    a: A,
    ramp: Smoothed,
    course: Seq<Float32>,
    n: int,
)
    requires
        rests_at_its_target(a),
        ramp.current == ramp.target,
        ramps(a, ramp, course),
        0 <= n <= course.len(),
    ensures
        forall|f: int| 0 <= f < n ==> course[f] == ramp.target,
    decreases n,
{
    if n > 0 {
        lemma_resting(a, ramp, course, n - 1);
        assert(ramps_at(a, ramp, course, n - 1));
    }
}

/// How many floats two numbers are apart.
pub open spec fn apart(x: Float32, y: Float32) -> int {
    if x.rank() <= y.rank() {
        y.rank() - x.rank()
    } else {
        x.rank() - y.rank()
    }
}

/// A number on the way from one to another.
pub open spec fn between(from: Float32, x: Float32, to: Float32) -> bool {
    &&& !x.nan()
    &&& from.rank() <= x.rank() <= to.rank() || to.rank() <= x.rank() <= from.rank()
}

/// Arithmetic with which a number that glides at some speed neither goes back nor
/// passes its target.
pub open spec fn keeps_its_way<A: Arithmetic>(a: A, coeff: Float32) -> bool {
    forall|from: Float32, target: Float32, to: Float32| #[trigger]
        glides(a, from, target, coeff, to) && !from.nan() && !target.nan() ==> between(
            from,
            to,
            target,
        )
}

/// Arithmetic with which it also comes nearer with every frame, up to the last few
/// floats, where there is no telling.
pub open spec fn nears<A: Arithmetic>(a: A, coeff: Float32, slack: nat) -> bool {
    &&& keeps_its_way(a, coeff)
    &&& forall|from: Float32, target: Float32, to: Float32| #[trigger]
        glides(a, from, target, coeff, to) && !from.nan() && !target.nan() && apart(from, target)
            > slack ==> apart(to, target) < apart(from, target)
}

/// How far from a target a number can still be after so many frames.
pub open spec fn left_after(distance: int, frames: int, slack: nat) -> int {
    if distance - frames >= slack {
        distance - frames
    } else {
        slack as int
    }
}

/// A setting gets where it was set to: frame by frame it is nearer, never going
/// back or past it, and after as many frames as it had to go it is there, up to
/// the last few floats.
pub proof fn a_setting_gets_there<A: Arithmetic>(
    a: A,
    ramp: Smoothed,
    course: Seq<Float32>,
    slack: nat,
    n: int,
)
    requires
        ramps(a, ramp, course),
        nears(a, ramp.coeff, slack),
        !ramp.current.nan(),
        !ramp.target.nan(),
        0 <= n <= course.len(),
    ensures
        between(ramp.current, earlier(ramp.current, course, n), ramp.target),
        apart(earlier(ramp.current, course, n), ramp.target) <= left_after(
            apart(ramp.current, ramp.target),
            n,
            slack,
        ),
    decreases n,
{
    if n > 0 {
        a_setting_gets_there(a, ramp, course, slack, n - 1);
        assert(ramps_at(a, ramp, course, n - 1));
    }
}

/// What a setting is set to is where it goes; where it was made is where it
/// rests.
pub proof fn a_setting_goes_where_it_is_set<A: Arithmetic>(
    a: A,
    ramp: Smoothed,
    number: Float32,
    sample_rate: u32,
)
    ensures
        ramp.toward(number).target == number,
        ramp.toward(number).current == ramp.current,
        ramp.toward(number).coeff == ramp.coeff,
        at_rest(a, number, sample_rate, ramp) ==> ramp.current == number && ramp.target == number
            && exists|hundredth: Float32|
            hundredth.is_quotient(1, 100) && #[trigger] call_ensures(
                A::settling,
                (&a, hundredth, sample_rate),
                ramp.coeff,
            ),
{
    settings_take_ten_milliseconds();
    let hundredth = Float32 { bits: SETTING_TIME_BITS };
    if at_rest(a, number, sample_rate, ramp) {
        assert(call_ensures(A::settling, (&a, hundredth, sample_rate), ramp.coeff));
    }
}

/// A time constant of so many milliseconds.
pub open spec fn takes_ms<A: Arithmetic>(a: A, n: nat, sample_rate: u32, coeff: Float32) -> bool {
    exists|ms: Float32|
        ms.is_quotient(n, 1) && #[trigger] settles_ms(a, ms, sample_rate, coeff)
}

/// Arithmetic on which a mix of none is the sound before a stage, and a mix of all
/// the sound behind it.
pub open spec fn blends_whole<A: Arithmetic>(a: A) -> bool {
    &&& forall|d: Float32, w: Float32, none: Float32, r: Float32|
        none.bits == 0 && #[trigger] call_ensures(A::blend, (&a, d, w, none), r) ==> r == d
    &&& forall|d: Float32, w: Float32, all: Float32, r: Float32|
        all.is_quotient(1, 1) && #[trigger] call_ensures(A::blend, (&a, d, w, all), r) ==> r == w
}

/// A stage that is passed over is not heard, and one that is not passed over is
/// all that is heard, once the fade is over.
pub proof fn a_bypassed_stage_is_not_heard<A: Arithmetic>(
    a: A,
    bypass: BypassRamp,
    bypassed: bool,
    dry: Seq<Float32>,
    wet: Seq<Float32>,
    channels: int,
    after: Smoothed,
    out: Seq<Float32>,
    i: int,
)
    requires
        channels > 0,
        rests_at_its_target(a),
        blends_whole(a),
        bypass.mix.current == bypass.toward(bypassed).mix.target,
        crossfades(a, bypass.toward(bypassed).mix, dry, wet, channels, after, out),
        0 <= i < (wet.len() as int / channels) * channels,
    ensures
        out.len() == wet.len(),
        out[i] == if bypassed {
            dry[i]
        } else {
            wet[i]
        },
{
    let mix = bypass.toward(bypassed).mix;
    let n = wet.len() as int / channels;
    let course = choose|course: Seq<Float32>| #[trigger]
        ramps(a, mix, course) && {
            &&& course.len() == n
            &&& after == mix.after(course)
            &&& out.len() == wet.len()
            &&& forall|i: int|
                0 <= i < out.len() ==> if i / channels < course.len() {
                    call_ensures(
                        A::blend,
                        (&a, dry[i], wet[i], course[i / channels]),
                        #[trigger] out[i],
                    )
                } else {
                    out[i] == wet[i]
                }
        };
    lemma_resting(a, mix, course, n);
    lemma_whole_frames(i, channels, n);
    vstd::arithmetic::div_mod::lemma_div_pos_is_pos(i, channels);
    vstd::arithmetic::div_mod::lemma_fundamental_div_mod(wet.len() as int, channels);
    assert(n * channels == channels * n) by (nonlinear_arith);
    one_is_one();
    assert(course[i / channels] == mix.target);
    let heard = out[i];
}

} // verus!
