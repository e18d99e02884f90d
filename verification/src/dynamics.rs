//! Gains that follow levels: the fader of a group, the level that lets a group
//! duck another, the ducking itself, and the limiter.
use crate::float::Float32;
use crate::meter::{frame_peak, peak_of};
use crate::ramp::{
    at_least, at_rest, crossfades, earlier, floored, frames_of, glides, lemma_ramps_push, lemma_scaled_push,
    lemma_unscaled,    ramps, scale_frame, scaled, settles_ms, settling_ms, share, Arithmetic, BypassRamp, Smoothed,
    DETECT_ATTACK_BITS, DETECT_RELEASE_BITS, LEVEL_FLOOR_BITS, ONE_BITS,
};
use crate::sample::Format;
use vstd::prelude::*;

verus! {

/// 2 ms and 50 ms, how fast a limiter takes a peak down and lets go of it.
pub const LIMITER_ATTACK_BITS: u32 = 0x4000_0000;

pub const LIMITER_RELEASE_BITS: u32 = 0x4248_0000;

/// 0.999: a gain below this is a reduction.
pub const ENGAGED_BITS: u32 = 0x3f7f_be77;

/// A group's gain and its share of the master.
#[derive(Debug, Clone, Copy)]
pub struct Fader {
    pub gain: Smoothed,
    pub master: Smoothed,
}

/// What a fader goes through, frame by frame.
pub struct FaderCourse {
    pub gains: Seq<Float32>,
    /// Empty where the group does not follow the master.
    pub masters: Seq<Float32>,
    /// The gain times the master's, or times one where the group does not
    /// follow it.
    pub factors: Seq<Float32>,
}

/// The factor of frame `f`.
pub open spec fn combines_at<A: Arithmetic>(a: A, course: FaderCourse, follows: bool, f: int) -> bool {
    call_ensures(
        A::times,
        (
            &a,
            course.gains[f],
            if follows {
                course.masters[f]
            } else {
                Float32 { bits: ONE_BITS }
            },
        ),
        course.factors[f],
    )
}

/// A fader can take a course of `n` frames. The master rests while the group
/// does not follow it.
pub open spec fn fader_moves<A: Arithmetic>(
    a: A,
    fader: Fader,
    gain: Float32,
    master: Option<Float32>,
    n: nat,
    course: FaderCourse,
    after: Fader,
) -> bool {
    &&& course.gains.len() == n
    &&& course.factors.len() == n
    &&& ramps(a, fader.gain.toward(gain), course.gains)
    &&& after.gain == fader.gain.toward(gain).after(course.gains)
    &&& match master {
        Some(m) => {
            &&& course.masters.len() == n
            &&& ramps(a, fader.master.toward(m), course.masters)
            &&& after.master == fader.master.toward(m).after(course.masters)
        },
        None => course.masters.len() == 0 && after.master == fader.master,
    }
    &&& forall|f: int| 0 <= f < n ==> #[trigger] combines_at(a, course, master is Some, f)
}

impl Fader {
    /// A fader at rest at its gains.
    pub fn new<A: Arithmetic>(a: &A, gain: Float32, master: Float32, sample_rate: u32) -> (r: Fader)
        ensures
            at_rest(*a, gain, sample_rate, r.gain),
            at_rest(*a, master, sample_rate, r.master),
    {
        Fader {
            gain: Smoothed::new(a, gain, sample_rate),
            master: Smoothed::new(a, master, sample_rate),
        }
    }

    /// Lays the gain on a block, and the master's where the group follows it.
    pub fn fade<A: Arithmetic>(
        &mut self,
        a: &A,
        gain: Float32,
        master: Option<Float32>,
        block: &mut Vec<Float32>,
        channels: usize,
    )
        requires
            channels > 0,
        ensures
            exists|course: FaderCourse| #[trigger]
                fader_moves(
                    *a,
                    *old(self),
                    gain,
                    master,
                    old(block)@.len() / (channels as nat),
                    course,
                    *final(self),
                ) && scaled(*a, old(block)@, channels as int, course.factors, final(block)@),
    {
        let ghost start = block@;
        let ghost first = *self;
        self.gain.set_target(gain);
        let follows: bool = match master {
            Some(m) => {
                self.master.set_target(m);
                true
            },
            None => false,
        };
        let ghost gain_ramp = self.gain;
        let ghost master_ramp = self.master;
        let ghost mut gains: Seq<Float32> = Seq::empty();
        let ghost mut masters: Seq<Float32> = Seq::empty();
        let ghost mut factors: Seq<Float32> = Seq::empty();
        let total: usize = block.len();
        let frames: usize = frames_of(total, channels);
        proof {
            lemma_unscaled(*a, start, channels as int);
        }
        let mut f: usize = 0;
        while f < frames
            invariant
                f <= frames,
                channels > 0,
                frames * channels <= total == block@.len() == start.len(),
                gains.len() == f,
                factors.len() == f,
                masters.len() == if follows {
                    f as nat
                } else {
                    0
                },
                ramps(*a, gain_ramp, gains),
                self.gain == gain_ramp.after(gains),
                ramps(*a, master_ramp, masters),
                self.master == master_ramp.after(masters),
                forall|g: int|
                    0 <= g < f ==> #[trigger] combines_at(
                        *a,
                        (FaderCourse { gains, masters, factors }),
                        follows,
                        g,
                    ),
                scaled(*a, start, channels as int, factors, block@),
            decreases frames - f,
        {
            assert((f + 1) * channels <= frames * channels) by (nonlinear_arith)
                requires
                    f < frames,
            ;
            let ghost kept = FaderCourse { gains, masters, factors };
            let step: Float32 = if follows {
                let m: Float32 = self.master.next(a);
                proof {
                    lemma_ramps_push(*a, master_ramp, masters, m);
                    masters = masters.push(m);
                }
                m
            } else {
                Float32 { bits: ONE_BITS }
            };
            let g: Float32 = self.gain.next(a);
            let factor: Float32 = a.times(g, step);
            let ghost so_far = block@;
            scale_frame(a, block, channels, f, factor);
            proof {
                lemma_ramps_push(*a, gain_ramp, gains, g);
                gains = gains.push(g);
                lemma_scaled_push(*a, start, channels as int, factors, so_far, factor, block@);
                factors = factors.push(factor);
                let course = FaderCourse { gains, masters, factors };
                assert forall|h: int| 0 <= h < f + 1 implies #[trigger] combines_at(
                    *a,
                    course,
                    follows,
                    h,
                ) by {
                    if h < f {
                        assert(combines_at(*a, kept, follows, h));
                    }
                }
            }
            f = f + 1;
        }
        proof {
            let course = FaderCourse { gains, masters, factors };
            assert(fader_moves(*a, first, gain, master, frames as nat, course, *self));
        }
    }
}

/// Frame `f` of a level that follows a block: up at the speed of the attack,
/// down at that of the release.
pub open spec fn follows_at<A: Arithmetic>(
    a: A,
    follower: EnvFollower,
    block: Seq<Float32>,
    channels: int,
    course: Seq<Float32>,
    f: int,
) -> bool {
    let from = earlier(follower.env, course, f);
    let peak = frame_peak(block, channels, f);
    glides(
        a,
        from,
        peak,
        if from.less(peak) {
            follower.attack
        } else {
            follower.release
        },
        course[f],
    )
}

/// The levels that a follower can find in a block, frame by frame.
pub open spec fn finds<A: Arithmetic>(
    a: A,
    follower: EnvFollower,
    block: Seq<Float32>,
    channels: int,
    course: Seq<Float32>,
) -> bool {
    forall|f: int|
        0 <= f < course.len() ==> #[trigger] follows_at(a, follower, block, channels, course, f)
}

/// Finds the level of a group, so that others can duck under it. One step for
/// each frame, by its loudest channel.
#[derive(Debug, Clone, Copy)]
pub struct EnvFollower {
    pub env: Float32,
    pub attack: Float32,
    pub release: Float32,
}

/// A follower that has heard nothing.
pub open spec fn follower_fresh<A: Arithmetic>(
    a: A,
    sample_rate: u32,
    follower: EnvFollower,
) -> bool {
    &&& follower.env == (Float32 { bits: 0 })
    &&& settles_ms(a, Float32 { bits: DETECT_ATTACK_BITS }, sample_rate, follower.attack)
    &&& settles_ms(a, Float32 { bits: DETECT_RELEASE_BITS }, sample_rate, follower.release)
}

impl EnvFollower {
    pub fn new<A: Arithmetic>(a: &A, sample_rate: u32) -> (r: EnvFollower)
        ensures
            follower_fresh(*a, sample_rate, r),
    {
        EnvFollower {
            env: Float32 { bits: 0 },
            attack: settling_ms(a, Float32 { bits: DETECT_ATTACK_BITS }, sample_rate),
            release: settling_ms(a, Float32 { bits: DETECT_RELEASE_BITS }, sample_rate),
        }
    }

    /// The level at the end of a block, in decibels below full scale.
    pub fn process_block<A: Arithmetic>(
        &mut self,
        a: &A,
        block: &Vec<Float32>,
        channels: usize,
    ) -> (r: Float32)
        requires
            channels > 0,
        ensures
            exists|course: Seq<Float32>| #[trigger]
                finds(*a, *old(self), block@, channels as int, course) && {
                    &&& course.len() == block@.len() / (channels as nat)
                    &&& *final(self) == (EnvFollower {
                        env: earlier(old(self).env, course, course.len() as int),
                        ..*old(self)
                    })
                },
            call_ensures(
                A::decibels,
                (a, floored(final(self).env, Float32 { bits: LEVEL_FLOOR_BITS })),
                r,
            ),
    {
        let ghost first = *self;
        let ghost mut course: Seq<Float32> = Seq::empty();
        let total: usize = block.len();
        let frames: usize = frames_of(total, channels);
        let mut f: usize = 0;
        while f < frames
            invariant
                f <= frames,
                channels > 0,
                frames * channels <= total == block@.len(),
                course.len() == f,
                finds(*a, first, block@, channels as int, course),
                *self == (EnvFollower { env: earlier(first.env, course, f as int), ..first }),
            decreases frames - f,
        {
            assert((f + 1) * channels <= frames * channels) by (nonlinear_arith)
                requires
                    f < frames,
            ;
            let peak: Float32 = peak_of(block.as_slice(), channels, f);
            let coeff: Float32 = if self.env.is_less(peak) {
                self.attack
            } else {
                self.release
            };
            self.env = a.glide(self.env, peak, coeff);
            let ghost longer = course.push(self.env);
            assert forall|g: int| 0 <= g < longer.len() implies #[trigger] follows_at(
                *a,
                first,
                block@,
                channels as int,
                longer,
                g,
            ) by {
                if g < course.len() {
                    assert(follows_at(*a, first, block@, channels as int, course, g));
                }
            }
            proof {
                course = longer;
            }
            f = f + 1;
        }
        a.decibels(at_least(self.env, Float32 { bits: LEVEL_FLOOR_BITS }))
    }
}

/// Frame `f` of a gain that goes to a target: down at the speed of the attack,
/// up at that of the release.
pub open spec fn ducks_at<A: Arithmetic>(
    a: A,
    gain: DuckTargetGain,
    target: Float32,
    course: Seq<Float32>,
    f: int,
) -> bool {
    let from = earlier(gain.current, course, f);
    glides(
        a,
        from,
        target,
        if target.less(from) {
            gain.attack_coeff
        } else {
            gain.release_coeff
        },
        course[f],
    )
}

/// The gains that a ducked group can go through, frame by frame.
pub open spec fn ducking<A: Arithmetic>(
    a: A,
    gain: DuckTargetGain,
    target: Float32,
    course: Seq<Float32>,
) -> bool {
    forall|f: int| 0 <= f < course.len() ==> #[trigger] ducks_at(a, gain, target, course, f)
}

/// The gain of a group that ducks under another, as fast as the group's own
/// settings say.
#[derive(Debug, Clone, Copy)]
pub struct DuckTargetGain {
    pub current: Float32,
    pub attack_coeff: Float32,
    pub release_coeff: Float32,
}

/// The gain after a course.
pub open spec fn ducked_by(gain: DuckTargetGain, course: Seq<Float32>) -> DuckTargetGain {
    DuckTargetGain { current: earlier(gain.current, course, course.len() as int), ..gain }
}

impl DuckTargetGain {
    pub fn new<A: Arithmetic>(a: &A, sample_rate: u32, attack_ms: Float32, release_ms: Float32) -> (r:
        DuckTargetGain)
        ensures
            r.current == (Float32 { bits: ONE_BITS }),
            settles_ms(*a, attack_ms, sample_rate, r.attack_coeff),
            settles_ms(*a, release_ms, sample_rate, r.release_coeff),
    {
        DuckTargetGain {
            current: Float32 { bits: ONE_BITS },
            attack_coeff: settling_ms(a, attack_ms, sample_rate),
            release_coeff: settling_ms(a, release_ms, sample_rate),
        }
    }

    /// Lays the gain on a block on its way to a target.
    pub fn apply<A: Arithmetic>(
        &mut self,
        a: &A,
        block: &mut Vec<Float32>,
        target: Float32,
        channels: usize,
    )
        requires
            channels > 0,
        ensures
            exists|course: Seq<Float32>| #[trigger]
                ducking(*a, *old(self), target, course) && {
                    &&& course.len() == old(block)@.len() / (channels as nat)
                    &&& *final(self) == ducked_by(*old(self), course)
                    &&& scaled(*a, old(block)@, channels as int, course, final(block)@)
                },
    {
        let ghost first = *self;
        let ghost start = block@;
        let ghost mut course: Seq<Float32> = Seq::empty();
        let total: usize = block.len();
        let frames: usize = frames_of(total, channels);
        proof {
            lemma_unscaled(*a, start, channels as int);
        }
        let mut f: usize = 0;
        while f < frames
            invariant
                f <= frames,
                channels > 0,
                frames * channels <= total == block@.len() == start.len(),
                course.len() == f,
                ducking(*a, first, target, course),
                *self == ducked_by(first, course),
                scaled(*a, start, channels as int, course, block@),
            decreases frames - f,
        {
            assert((f + 1) * channels <= frames * channels) by (nonlinear_arith)
                requires
                    f < frames,
            ;
            let coeff: Float32 = if target.is_less(self.current) {
                self.attack_coeff
            } else {
                self.release_coeff
            };
            self.current = a.glide(self.current, target, coeff);
            let ghost longer = course.push(self.current);
            assert forall|g: int| 0 <= g < longer.len() implies #[trigger] ducks_at(
                *a,
                first,
                target,
                longer,
                g,
            ) by {
                if g < course.len() {
                    assert(ducks_at(*a, first, target, course, g));
                }
            }
            let ghost so_far = block@;
            scale_frame(a, block, channels, f, self.current);
            proof {
                lemma_scaled_push(
                    *a,
                    start,
                    channels as int,
                    course,
                    so_far,
                    self.current,
                    block@,
                );
                course = longer;
            }
            f = f + 1;
        }
    }

    /// How far the group is ducked, in decibels: none is zero.
    pub fn depth_db<A: Arithmetic>(&self, a: &A) -> (r: Float32)
        ensures
            exists|level: Float32|
                #[trigger] call_ensures(
                    A::decibels,
                    (a, floored(self.current, Float32 { bits: LEVEL_FLOOR_BITS })),
                    level,
                ) && r == level.opposite(),
    {
        let level = a.decibels(at_least(self.current, Float32 { bits: LEVEL_FLOOR_BITS }));
        level.negate()
    }
}

/// Takes peaks down to a ceiling. One gain for all channels of a frame, by the
/// loudest of them: a gain for each would move the sound to one side.
#[derive(Debug, Clone, Copy)]
pub struct Limiter {
    pub ceiling: Smoothed,
    pub envelope: Float32,
    pub attack_coeff: Float32,
    pub release_coeff: Float32,
    pub channels: usize,
    pub bypass: BypassRamp,
    pub engaged: bool,
}

/// What a limiter goes through, frame by frame.
pub struct LimiterCourse {
    pub ceilings: Seq<Float32>,
    /// The gain that each frame asks for.
    pub targets: Seq<Float32>,
    /// The gain that is on each frame.
    pub gains: Seq<Float32>,
}

/// Frame `f` of a limiter. A peak above the ceiling asks for the gain that
/// takes it there, any other for none.
pub open spec fn limits_at<A: Arithmetic>(
    a: A,
    limiter: Limiter,
    block: Seq<Float32>,
    course: LimiterCourse,
    f: int,
) -> bool {
    let peak = frame_peak(block, limiter.channels as int, f);
    let ceiling = course.ceilings[f];
    let target = course.targets[f];
    let from = earlier(limiter.envelope, course.gains, f);
    &&& if ceiling.less(peak) {
        call_ensures(
            A::over,
            (&a, ceiling, floored(peak, Float32 { bits: LEVEL_FLOOR_BITS })),
            target,
        )
    } else {
        target == (Float32 { bits: ONE_BITS })
    }
    &&& glides(
        a,
        from,
        target,
        if target.less(from) {
            limiter.attack_coeff
        } else {
            limiter.release_coeff
        },
        course.gains[f],
    )
}

/// A limiter can take a course of `n` frames through a block.
pub open spec fn limiting<A: Arithmetic>(
    a: A,
    limiter: Limiter,
    block: Seq<Float32>,
    n: nat,
    course: LimiterCourse,
) -> bool {
    &&& course.ceilings.len() == n
    &&& course.targets.len() == n
    &&& course.gains.len() == n
    &&& ramps(a, limiter.ceiling, course.ceilings)
    &&& forall|f: int| 0 <= f < n ==> #[trigger] limits_at(a, limiter, block, course, f)
}

/// Whether any frame is reduced.
pub open spec fn reduces(gains: Seq<Float32>) -> bool {
    exists|f: int|
        0 <= f < gains.len() && (#[trigger] gains[f]).less(Float32 { bits: ENGAGED_BITS })
}

/// A limiter can make `out` of a block: the gains of a course on it, and then
/// the fade to the sound before.
pub open spec fn limited<A: Arithmetic>(
    a: A,
    limiter: Limiter,
    block: Seq<Float32>,
    after: Limiter,
    out: Seq<Float32>,
) -> bool {
    exists|course: LimiterCourse, wet: Seq<Float32>|
        {
            &&& #[trigger] limiting(
                a,
                limiter,
                block,
                block.len() / (limiter.channels as nat),
                course,
            )
            &&& #[trigger] scaled(a, block, limiter.channels as int, course.gains, wet)
            &&& crossfades(
                a,
                limiter.bypass.mix,
                block,
                wet,
                limiter.channels as int,
                after.bypass.mix,
                out,
            )
            &&& after == (Limiter {
                ceiling: limiter.ceiling.after(course.ceilings),
                envelope: earlier(
                    limiter.envelope,
                    course.gains,
                    course.gains.len() as int,
                ),
                engaged: reduces(course.gains),
                bypass: after.bypass,
                ..limiter
            })
        }
}

/// A limiter at rest at its ceiling.
pub open spec fn limiter_fresh<A: Arithmetic>(
    a: A,
    ceiling_db: Float32,
    fmt: Format,
    limiter: Limiter,
) -> bool {
    &&& call_ensures(A::linear, (&a, ceiling_db), limiter.ceiling.current)
    &&& at_rest(a, limiter.ceiling.current, fmt.sample_rate, limiter.ceiling)
    &&& limiter.envelope == (Float32 { bits: ONE_BITS })
    &&& settles_ms(
        a,
        Float32 { bits: LIMITER_ATTACK_BITS },
        fmt.sample_rate,
        limiter.attack_coeff,
    )
    &&& settles_ms(
        a,
        Float32 { bits: LIMITER_RELEASE_BITS },
        fmt.sample_rate,
        limiter.release_coeff,
    )
    &&& limiter.channels == fmt.channels
    &&& at_rest(a, share(false), fmt.sample_rate, limiter.bypass.mix)
    &&& !limiter.engaged
}

/// A copy of a block.
pub fn copy_block(block: &Vec<Float32>) -> (r: Vec<Float32>)
    ensures
        r@ == block@,
{
    let mut out: Vec<Float32> = Vec::new();
    let mut i: usize = 0;
    while i < block.len()
        invariant
            i <= block@.len(),
            out@ == block@.take(i as int),
        decreases block@.len() - i,
    {
        out.push(block[i]);
        i = i + 1;
        assert(block@.take(i as int) =~= block@.take(i - 1).push(block@[i - 1]));
    }
    assert(block@.take(i as int) =~= block@);
    out
}

impl Limiter {
    /// Blocks have whole frames of at least one channel.
    pub open spec fn wf(self) -> bool {
        self.channels > 0
    }

    /// A limiter at rest.
    pub fn new<A: Arithmetic>(a: &A, ceiling_db: Float32, fmt: Format) -> (r: Limiter)
        requires
            fmt.channels > 0,
        ensures
            r.wf(),
            limiter_fresh(*a, ceiling_db, fmt, r),
    {
        let rate: u32 = fmt.sample_rate;
        let ceiling = a.linear(ceiling_db);
        Limiter {
            ceiling: Smoothed::new(a, ceiling, rate),
            envelope: Float32 { bits: ONE_BITS },
            attack_coeff: settling_ms(a, Float32 { bits: LIMITER_ATTACK_BITS }, rate),
            release_coeff: settling_ms(a, Float32 { bits: LIMITER_RELEASE_BITS }, rate),
            channels: fmt.channels as usize,
            bypass: BypassRamp::new(a, rate),
            engaged: false,
        }
    }

    /// Whether any frame of the last block was reduced.
    pub fn engaged(&self) -> (r: bool)
        ensures
            r == self.engaged,
    {
        self.engaged
    }

    pub fn process<A: Arithmetic>(&mut self, a: &A, block: &mut Vec<Float32>)
        requires
            old(self).wf(),
        ensures
            final(self).wf(),
            limited(*a, *old(self), old(block)@, *final(self), final(block)@),
    {
        let ghost first = *self;
        let ghost start = block@;
        let dry = copy_block(block);
        let channels: usize = self.channels;
        let total: usize = block.len();
        let frames: usize = frames_of(total, channels);
        let ghost mut ceilings: Seq<Float32> = Seq::empty();
        let ghost mut targets: Seq<Float32> = Seq::empty();
        let ghost mut gains: Seq<Float32> = Seq::empty();
        let mut any_engaged = false;
        proof {
            lemma_unscaled(*a, start, channels as int);
        }
        let mut f: usize = 0;
        while f < frames
            invariant
                f <= frames,
                channels > 0,
                channels == first.channels,
                frames * channels <= total == block@.len() == start.len(),
                ceilings.len() == f,
                targets.len() == f,
                gains.len() == f,
                ramps(*a, first.ceiling, ceilings),
                *self == (Limiter {
                    ceiling: first.ceiling.after(ceilings),
                    envelope: earlier(first.envelope, gains, f as int),
                    ..first
                }),
                forall|g: int|
                    0 <= g < f ==> #[trigger] limits_at(
                        *a,
                        first,
                        start,
                        (LimiterCourse { ceilings, targets, gains }),
                        g,
                    ),
                any_engaged == reduces(gains),
                scaled(*a, start, channels as int, gains, block@),
                dry@ == start,
            decreases frames - f,
        {
            assert((f + 1) * channels <= frames * channels) by (nonlinear_arith)
                requires
                    f < frames,
            ;
            let ghost kept = LimiterCourse { ceilings, targets, gains };
            let ceiling: Float32 = self.ceiling.next(a);
            let peak: Float32 = peak_of(dry.as_slice(), channels, f);
            let target: Float32 = if ceiling.is_less(peak) {
                a.over(ceiling, at_least(peak, Float32 { bits: LEVEL_FLOOR_BITS }))
            } else {
                Float32 { bits: ONE_BITS }
            };
            let coeff: Float32 = if target.is_less(self.envelope) {
                self.attack_coeff
            } else {
                self.release_coeff
            };
            let gain: Float32 = a.glide(self.envelope, target, coeff);
            self.envelope = gain;
            if gain.is_less(Float32 { bits: ENGAGED_BITS }) {
                any_engaged = true;
            }
            let ghost so_far = block@;
            scale_frame(a, block, channels, f, gain);
            proof {
                lemma_ramps_push(*a, first.ceiling, ceilings, ceiling);
                lemma_scaled_push(*a, start, channels as int, gains, so_far, gain, block@);
                ceilings = ceilings.push(ceiling);
                targets = targets.push(target);
                gains = gains.push(gain);
                let course = LimiterCourse { ceilings, targets, gains };
                assert forall|g: int| 0 <= g < f + 1 implies #[trigger] limits_at(
                    *a,
                    first,
                    start,
                    course,
                    g,
                ) by {
                    if g < f {
                        assert(limits_at(*a, first, start, kept, g));
                    }
                }
                assert(reduces(gains) == (reduces(kept.gains) || gain.less(
                    Float32 { bits: ENGAGED_BITS },
                ))) by {
                    if reduces(kept.gains) {
                        let g = choose|g: int|
                            0 <= g < kept.gains.len() && (#[trigger] kept.gains[g]).less(
                                Float32 { bits: ENGAGED_BITS },
                            );
                        assert(gains[g] == kept.gains[g]);
                    }
                    if gain.less(Float32 { bits: ENGAGED_BITS }) {
                        assert(gains[f as int] == gain);
                    }
                    if reduces(gains) {
                        let g = choose|g: int|
                            0 <= g < gains.len() && (#[trigger] gains[g]).less(
                                Float32 { bits: ENGAGED_BITS },
                            );
                        if g < f {
                            assert(kept.gains[g] == gains[g]);
                        }
                    }
                }
            }
            f = f + 1;
        }
        self.engaged = any_engaged;
        let ghost wet = block@;
        self.bypass.crossfade(a, &dry, block, channels);
        proof {
            let course = LimiterCourse { ceilings, targets, gains };
            assert(limiting(*a, first, start, frames as nat, course));
            assert(scaled(*a, start, first.channels as int, course.gains, wet));
        }
    }

    /// Another ceiling to go to.
    pub fn set_ceiling<A: Arithmetic>(&mut self, a: &A, ceiling_db: Float32)
        ensures
            exists|ceiling: Float32| #[trigger]
                call_ensures(A::linear, (a, ceiling_db), ceiling) && *final(self) == (Limiter {
                    ceiling: old(self).ceiling.toward(ceiling),
                    ..*old(self)
                }),
    {
        let ceiling = a.linear(ceiling_db);
        self.ceiling.set_target(ceiling);
    }

    pub fn set_bypass(&mut self, bypassed: bool)
        ensures
            *final(self) == (Limiter {
                bypass: old(self).bypass.toward(bypassed),
                ..*old(self)
            }),
    {
        self.bypass.set_bypassed(bypassed);
    }

    /// Forgets what was heard.
    pub fn reset(&mut self)
        ensures
            *final(self) == (Limiter {
                envelope: Float32 { bits: ONE_BITS },
                engaged: false,
                ..*old(self)
            }),
    {
        self.envelope = Float32 { bits: ONE_BITS };
        self.engaged = false;
    }
}

/// A limiter at rest leaves a block alone that never rises above the ceiling,
/// as long as a number that has reached its target stays there.
pub proof fn quiet_blocks_are_not_limited<A: Arithmetic>(
    a: A,
    limiter: Limiter,
    block: Seq<Float32>,
    n: nat,
    course: LimiterCourse,
)
    requires
        limiting(a, limiter, block, n, course),
        limiter.envelope == (Float32 { bits: ONE_BITS }),
        forall|coeff: Float32, to: Float32| #[trigger]
            glides(a, Float32 { bits: ONE_BITS }, Float32 { bits: ONE_BITS }, coeff, to) ==> to == (
            Float32 { bits: ONE_BITS }),
        forall|f: int|
            0 <= f < n ==> !(#[trigger] course.ceilings[f]).less(
                frame_peak(block, limiter.channels as int, f),
            ),
    ensures
        forall|f: int| 0 <= f < n ==> #[trigger] course.gains[f] == (Float32 { bits: ONE_BITS }),
        !reduces(course.gains),
{
    lemma_quiet_upto(a, limiter, block, n, course, n as int);
}

proof fn lemma_quiet_upto<A: Arithmetic>(
    a: A,
    limiter: Limiter,
    block: Seq<Float32>,
    n: nat,
    course: LimiterCourse,
    m: int,
)
    requires
        limiting(a, limiter, block, n, course),
        0 <= m <= n,
        limiter.envelope == (Float32 { bits: ONE_BITS }),
        forall|coeff: Float32, to: Float32| #[trigger]
            glides(a, Float32 { bits: ONE_BITS }, Float32 { bits: ONE_BITS }, coeff, to) ==> to == (
            Float32 { bits: ONE_BITS }),
        forall|f: int|
            0 <= f < n ==> !(#[trigger] course.ceilings[f]).less(
                frame_peak(block, limiter.channels as int, f),
            ),
    ensures
        forall|f: int| 0 <= f < m ==> #[trigger] course.gains[f] == (Float32 { bits: ONE_BITS }),
    decreases m,
{
    if m > 0 {
        lemma_quiet_upto(a, limiter, block, n, course, m - 1);
        assert(limits_at(a, limiter, block, course, m - 1));
        assert(!course.ceilings[m - 1].less(frame_peak(block, limiter.channels as int, m - 1)));
    }
}

/// A limiter that is passed over keeps running: what it goes through does not
/// depend on how much of it is heard.
pub proof fn a_bypassed_limiter_keeps_running<A: Arithmetic>(
    a: A,
    limiter: Limiter,
    bypass: BypassRamp,
    block: Seq<Float32>,
    n: nat,
    course: LimiterCourse,
)
    requires
        limiting(a, limiter, block, n, course),
    ensures
        limiting(a, Limiter { bypass, ..limiter }, block, n, course),
{
    let other = Limiter { bypass, ..limiter };
    assert forall|f: int| 0 <= f < n implies #[trigger] limits_at(a, other, block, course, f) by {
        assert(limits_at(a, limiter, block, course, f));
    }
}

/// A group that is at its own gain and has nothing to duck under stays there,
/// as long as a number that has reached its target stays there.
pub proof fn nothing_ducks_by_itself<A: Arithmetic>(
    a: A,
    gain: DuckTargetGain,
    course: Seq<Float32>,
    n: int,
)
    requires
        gain.current == (Float32 { bits: ONE_BITS }),
        forall|coeff: Float32, to: Float32| #[trigger]
            glides(a, Float32 { bits: ONE_BITS }, Float32 { bits: ONE_BITS }, coeff, to) ==> to == (
            Float32 { bits: ONE_BITS }),
        ducking(a, gain, Float32 { bits: ONE_BITS }, course),
        0 <= n <= course.len(),
    ensures
        forall|f: int| 0 <= f < n ==> #[trigger] course[f] == (Float32 { bits: ONE_BITS }),
    decreases n,
{
    if n > 0 {
        nothing_ducks_by_itself(a, gain, course, n - 1);
        assert(ducks_at(a, gain, Float32 { bits: ONE_BITS }, course, n - 1));
    }
}

} // verus!
