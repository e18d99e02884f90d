//! Peak level meters: instant attack, a slow release, and a clip light that
//! stays on for a while.
//!
//! A meter moves once for each frame, whatever the number of channels: a step
//! for each sample would make the release faster the more channels there are.
use crate::float::{nearest, spacing, to_nearest, Float32};
use crate::ramp::{glides, Arithmetic};
use crate::sample::GroupId;
use vstd::prelude::*;

verus! {

/// Full scale: a frame that reaches it lights the clip indicator.
pub const FULL_SCALE_BITS: u32 = 0x3f80_0000;

/// -180 dBFS: below this the envelope is exactly zero.
pub const SILENCE_BITS: u32 = 0x3089_705f;

/// 0.3 s, the time that a meter takes to fall.
pub const METER_RELEASE_BITS: u32 = 0x3e99_999a;

/// A reading: the linear peak and whether the signal was at full scale a
/// moment ago.
#[derive(Debug, Clone, Copy, PartialEq)]
pub struct MeterLevel {
    pub peak: Float32,
    pub clipped: bool,
}

impl MeterLevel {
    /// No signal.
    pub fn silent() -> (r: MeterLevel)
        ensures
            r == (MeterLevel { peak: Float32 { bits: 0 }, clipped: false }),
    {
        MeterLevel { peak: Float32 { bits: 0 }, clipped: false }
    }
}

/// The greatest magnitude among the `n` samples from `start` on; a NaN counts
/// for nothing.
pub open spec fn greatest(block: Seq<Float32>, start: int, n: int) -> int
    decreases n,
{
    if n <= 0 {
        0
    } else {
        let before = greatest(block, start, n - 1);
        let m = block[start + n - 1].magnitude();
        if before < m <= 0x7f80_0000 {
            m
        } else {
            before
        }
    }
}

/// The peak of frame `f` over its channels.
pub open spec fn frame_peak(block: Seq<Float32>, channels: int, f: int) -> Float32 {
    Float32 { bits: greatest(block, f * channels, channels) as u32 }
}

/// One frame of the envelope: up at once, down a share of the way.
pub open spec fn moves<A: Arithmetic>(
    a: A,
    release: Float32,
    from: Float32,
    peak: Float32,
    to: Float32,
) -> bool {
    if from.at_most(peak) {
        to == peak
    } else {
        glides(a, from, peak, release, to)
    }
}

/// The envelope after the first `n` frames of a block.
pub open spec fn envelope<A: Arithmetic>(
    a: A,
    release: Float32,
    block: Seq<Float32>,
    channels: int,
    n: int,
    from: Float32,
    to: Float32,
) -> bool
    decreases n,
{
    if n <= 0 {
        to == from
    } else {
        exists|mid: Float32|
            envelope(a, release, block, channels, n - 1, from, mid) && #[trigger] moves(
                a,
                release,
                mid,
                frame_peak(block, channels, n - 1),
                to,
            )
    }
}

/// A spent envelope is exactly zero.
pub open spec fn flushed(env: Float32) -> Float32 {
    if env.less(Float32 { bits: SILENCE_BITS }) {
        Float32 { bits: 0 }
    } else {
        env
    }
}

/// Whether one of the first `n` frames reaches full scale.
pub open spec fn clips(block: Seq<Float32>, channels: int, n: int) -> bool {
    exists|f: int|
        0 <= f < n && (#[trigger] frame_peak(block, channels, f)).bits >= FULL_SCALE_BITS
}

/// What is left of a hold after some frames.
pub open spec fn run_down(left: u32, frames: u32) -> u32 {
    if left <= frames {
        0
    } else {
        (left - frames) as u32
    }
}

/// A peak follower with a clip light.
#[derive(Debug, Clone, Copy)]
pub struct PeakMeter {
    /// The smoothed linear peak.
    pub env: Float32,
    /// What is left of a fall after one frame.
    pub release: Float32,
    /// Frames before the clip light goes out.
    pub clip_hold_left: u32,
    /// Frames that the clip light stays on.
    pub clip_hold_frames: u32,
}

/// A meter at rest, whose clip light stays on for one second of frames.
pub open spec fn meter_fresh<A: Arithmetic>(a: A, sample_rate: u32, meter: PeakMeter) -> bool {
    &&& meter.env == (Float32 { bits: 0 })
    &&& call_ensures(
        A::settling,
        (&a, Float32 { bits: METER_RELEASE_BITS }, sample_rate),
        meter.release,
    )
    &&& meter.clip_hold_left == 0
    &&& meter.clip_hold_frames == if nearest(sample_rate as nat) <= u32::MAX {
        nearest(sample_rate as nat)
    } else {
        u32::MAX as nat
    }
}

/// A meter can come from one state to the other by taking in a block.
pub open spec fn observes<A: Arithmetic>(
    a: A,
    before: PeakMeter,
    block: Seq<Float32>,
    channels: int,
    after: PeakMeter,
) -> bool {
    let frames = block.len() / (channels as nat);
    &&& after.clip_hold_frames == before.clip_hold_frames
    &&& after.release == before.release
    &&& exists|to: Float32|
        after.env == flushed(to) && #[trigger] envelope(
            a,
            before.release,
            block,
            channels,
            frames as int,
            before.env,
            to,
        )
    &&& after.clip_hold_left == if clips(block, channels, frames as int) {
        before.clip_hold_frames
    } else {
        run_down(before.clip_hold_left, frames as u32)
    }
}

/// A meter can come from one state to the other where so many frames do not come.
pub open spec fn waits<A: Arithmetic>(
    a: A,
    before: PeakMeter,
    frames: usize,
    after: PeakMeter,
) -> bool {
    exists|to: Float32| #[trigger]
        call_ensures(A::decay, (&a, before.env, before.release, frames), to) && after == (
        PeakMeter {
            env: flushed(to),
            clip_hold_left: run_down(before.clip_hold_left, frames as u32),
            ..before
        })
}

fn run(left: u32, frames: u32) -> (r: u32)
    ensures
        r == run_down(left, frames),
{
    if left <= frames {
        0
    } else {
        left - frames
    }
}

fn flush(env: Float32) -> (r: Float32)
    ensures
        r == flushed(env),
{
    if env.is_less(Float32 { bits: SILENCE_BITS }) {
        Float32 { bits: 0 }
    } else {
        env
    }
}

pub fn peak_of(block: &[Float32], channels: usize, f: usize) -> (r: Float32)
    requires
        (f + 1) * channels <= block@.len(),
    ensures
        r == frame_peak(block@, channels as int, f as int),
        r.bits <= 0x7f80_0000,
{
    let total: usize = block.len();
    assert((f + 1) * channels == f * channels + channels) by (nonlinear_arith);
    let start: usize = f * channels;
    let mut peak: u32 = 0;
    let mut c: usize = 0;
    while c < channels
        invariant
            c <= channels,
            start == f * channels,
            start + channels <= total == block@.len(),
            peak == greatest(block@, start as int, c as int),
            peak <= 0x7f80_0000,
        decreases channels - c,
    {
        let m: u32 = block[start + c].abs().to_bits();
        if peak < m && m <= 0x7f80_0000 {
            peak = m;
        }
        c = c + 1;
    }
    Float32::from_bits(peak)
}

impl PeakMeter {
    /// A meter at rest, whose clip light stays on for one second of frames.
    pub fn new<A: Arithmetic>(a: &A, sample_rate: u32) -> (r: PeakMeter)
        ensures
            meter_fresh(*a, sample_rate, r),
    {
        let rounded = to_nearest(sample_rate);
        let clip_hold_frames: u32 = if rounded <= 0xffff_ffff {
            rounded as u32
        } else {
            0xffff_ffff
        };
        let release = a.settling(Float32 { bits: METER_RELEASE_BITS }, sample_rate);
        PeakMeter { env: Float32 { bits: 0 }, release, clip_hold_left: 0, clip_hold_frames }
    }

    /// Takes in one block of interleaved samples. A frame that is not whole is
    /// left out, and so is everything where there are no channels.
    pub fn observe<A: Arithmetic>(&mut self, a: &A, block: &[Float32], channels: usize)
        ensures
            channels == 0 ==> *final(self) == *old(self),
            channels > 0 ==> observes(*a, *old(self), block@, channels as int, *final(self)),
    {
        if channels == 0 {
            return ;
        }
        let total: usize = block.len();
        let frames: usize = total / channels;
        proof {
            vstd::arithmetic::div_mod::lemma_fundamental_div_mod(total as int, channels as int);
            assert(frames * channels <= total) by (nonlinear_arith)
                requires
                    total == channels * frames + total % channels,
                    total % channels >= 0,
            ;
        }
        let mut env = self.env;
        let mut clipped = false;
        let mut f: usize = 0;
        while f < frames
            invariant
                f <= frames,
                frames * channels <= total == block@.len(),
                *self == *old(self),
                envelope(
                    *a,
                    self.release,
                    block@,
                    channels as int,
                    f as int,
                    old(self).env,
                    env,
                ),
                clipped == clips(block@, channels as int, f as int),
            decreases frames - f,
        {
            assert((f + 1) * channels <= frames * channels) by (nonlinear_arith)
                requires
                    f < frames,
            ;
            let peak = peak_of(block, channels, f);
            let ghost mid = env;
            env = if env.is_at_most(peak) {
                peak
            } else {
                a.glide(env, peak, self.release)
            };
            assert(moves(*a, self.release, mid, peak, env));
            if peak.to_bits() >= FULL_SCALE_BITS {
                clipped = true;
            }
            f = f + 1;
            assert(frame_peak(block@, channels as int, f - 1) == peak);
        }
        self.env = flush(env);
        if clipped {
            self.clip_hold_left = self.clip_hold_frames;
        } else {
            self.clip_hold_left = run(self.clip_hold_left, frames as u32);
        }
    }

    /// Lets `frames` of silence pass without a block, so that the meter of a
    /// group that has gone quiet falls instead of standing still.
    pub fn observe_silence<A: Arithmetic>(&mut self, a: &A, frames: usize)
        ensures
            waits(*a, *old(self), frames, *final(self)),
    {
        let env = a.decay(self.env, self.release, frames);
        self.env = flush(env);
        self.clip_hold_left = run(self.clip_hold_left, frames as u32);
    }

    /// What the meter shows.
    pub fn sample(&self) -> (r: MeterLevel)
        ensures
            r == (MeterLevel { peak: self.env, clipped: self.clip_hold_left > 0 }),
    {
        MeterLevel { peak: self.env, clipped: self.clip_hold_left > 0 }
    }

    pub fn reset(&mut self)
        ensures
            *final(self) == (PeakMeter {
                env: Float32 { bits: 0 },
                clip_hold_left: 0,
                ..*old(self)
            }),
    {
        self.env = Float32 { bits: 0 };
        self.clip_hold_left = 0;
    }
}

/// The reading of the first entry of a group, from position `from` on.
pub open spec fn level_of_group(peaks: Seq<(GroupId, MeterLevel)>, id: GroupId, from: int) -> MeterLevel
    decreases peaks.len() - from,
{
    if from < 0 || from >= peaks.len() {
        MeterLevel { peak: Float32 { bits: 0 }, clipped: false }
    } else if peaks[from].0 == id {
        peaks[from].1
    } else {
        level_of_group(peaks, id, from + 1)
    }
}

/// The reading of a group. One that has not reported yet reads silent.
pub fn peak_for(peaks: &Vec<(GroupId, MeterLevel)>, id: GroupId) -> (r: MeterLevel)
    ensures
        r == level_of_group(peaks@, id, 0),
{
    let mut i: usize = 0;
    while i < peaks.len()
        invariant
            i <= peaks.len(),
            level_of_group(peaks@, id, 0) == level_of_group(peaks@, id, i as int),
        decreases peaks.len() - i,
    {
        if peaks[i].0 == id {
            return peaks[i].1;
        }
        i = i + 1;
    }
    MeterLevel::silent()
}

/// A hold runs down by time alone: how the time is cut into blocks makes no
/// difference.
pub proof fn holds_run_down_by_time(left: u32, a: u32, b: u32)
    requires
        a + b <= u32::MAX,
    ensures
        run_down(run_down(left, a), b) == run_down(left, (a + b) as u32),
{
}

/// After a clip the light is on for exactly the hold and not a frame longer.
pub proof fn a_clip_shows_for_the_whole_hold(meter: PeakMeter, frames: u32)
    requires
        meter.clip_hold_left == meter.clip_hold_frames,
    ensures
        run_down(meter.clip_hold_left, frames) > 0 <==> frames < meter.clip_hold_frames,
{
}

proof fn lemma_spacing(n: nat)
    requires
        1 <= n,
    ensures
        1 <= spacing(n) <= n,
    decreases n,
{
    if n >= 0x100_0000 {
        lemma_spacing(n / 2);
    }
}

/// The clip light of a new meter stays on for a second of frames, and for one frame
/// at least, so that no clip goes unseen.
pub proof fn every_clip_is_shown<A: Arithmetic>(a: A, sample_rate: u32, meter: PeakMeter)
    requires
        meter_fresh(a, sample_rate, meter),
        sample_rate >= 1,
    ensures
        meter.clip_hold_frames >= 1,
        sample_rate < 0x100_0000 ==> meter.clip_hold_frames == sample_rate,
{
    let n = sample_rate as nat;
    lemma_spacing(n);
    let step = spacing(n);
    vstd::arithmetic::div_mod::lemma_fundamental_div_mod(n as int, step as int);
    let below = (n / step) as int;
    let over = (n % step) as int;
    assert(below >= 1) by (nonlinear_arith)
        requires
            n == step * below + over,
            0 <= over < step <= n,
    ;
    assert(1 <= below * step && 1 <= (below + 1) * step) by (nonlinear_arith)
        requires
            below >= 1,
            step >= 1,
    ;
}

/// Arithmetic on which what glides down to a level stays between the two.
pub open spec fn glides_between<A: Arithmetic>(a: A, release: Float32) -> bool {
    forall|from: Float32, target: Float32, to: Float32| #[trigger]
        glides(a, from, target, release, to) && target.bits <= 0x7f80_0000 && target.less(from)
            ==> target.at_most(to) && to.at_most(from)
}

proof fn lemma_greatest(block: Seq<Float32>, start: int, n: int)
    ensures
        0 <= greatest(block, start, n) <= 0x7f80_0000,
    decreases n,
{
    if n > 0 {
        lemma_greatest(block, start, n - 1);
    }
}

/// A level is no more than another one or than the peak of one of the first `n`
/// frames.
pub open spec fn within_peaks(
    level: Float32,
    past: Float32,
    block: Seq<Float32>,
    channels: int,
    n: int,
) -> bool {
    ||| level.at_most(past)
    ||| exists|f: int| 0 <= f < n && level.at_most(#[trigger] frame_peak(block, channels, f))
}

proof fn lemma_envelope_bounds<A: Arithmetic>(
    a: A,
    release: Float32,
    block: Seq<Float32>,
    channels: int,
    n: int,
    from: Float32,
    to: Float32,
)
    requires
        glides_between(a, release),
        envelope(a, release, block, channels, n, from, to),
        !from.nan(),
    ensures
        !to.nan(),
        within_peaks(to, from, block, channels, n),
        n > 0 ==> frame_peak(block, channels, n - 1).at_most(to),
    decreases n,
{
    if n > 0 {
        let peak = frame_peak(block, channels, n - 1);
        lemma_greatest(block, (n - 1) * channels, channels);
        let mid = choose|mid: Float32|
            envelope(a, release, block, channels, n - 1, from, mid) && #[trigger] moves(
                a,
                release,
                mid,
                peak,
                to,
            );
        lemma_envelope_bounds(a, release, block, channels, n - 1, from, mid);
        if mid.at_most(peak) {
            assert(to.at_most(frame_peak(block, channels, n - 1)));
        } else {
            assert(glides(a, mid, peak, release, to));
            if !mid.at_most(from) {
                let f = choose|f: int|
                    0 <= f < n - 1 && mid.at_most(#[trigger] frame_peak(block, channels, f));
                assert(to.at_most(frame_peak(block, channels, f)));
            }
        }
    }
}

/// What a meter shows after a block lies between the last frame and the loudest
/// of the past and the block, but for what is too faint to show. A last frame
/// that nothing is louder than is shown as it is, at once. The clip light is on
/// after a block that reaches full scale, and off after one that does not, if it
/// was off before.
pub proof fn a_meter_reads_between_past_and_present<A: Arithmetic>(
    a: A,
    before: PeakMeter,
    block: Seq<Float32>,
    channels: int,
    after: PeakMeter,
)
    requires
        channels > 0,
        channels <= block.len(),
        glides_between(a, before.release),
        !before.env.nan(),
        observes(a, before, block, channels, after),
    ensures
        ({
            let frames = (block.len() / (channels as nat)) as int;
            let last = frame_peak(block, channels, frames - 1);
            &&& frames >= 1
            &&& last.at_most(after.env) || after.env.bits == 0 && last.less(
                Float32 { bits: SILENCE_BITS },
            )
            &&& after.env.bits == 0 || within_peaks(
                after.env,
                before.env,
                block,
                channels,
                frames,
            )
            &&& before.env.at_most(last) && (forall|f: int|
                0 <= f < frames ==> (#[trigger] frame_peak(block, channels, f)).at_most(last))
                ==> flushed(last).rank() == after.env.rank()
            &&& clips(block, channels, frames) ==> after.clip_hold_left == before.clip_hold_frames
                && (before.clip_hold_frames >= 1 ==> after.clip_hold_left > 0)
            &&& !clips(block, channels, frames) && before.clip_hold_left == 0
                ==> after.clip_hold_left == 0
        }),
{
    let frames = (block.len() / (channels as nat)) as int;
    assert(frames >= 1) by (nonlinear_arith)
        requires
            channels > 0,
            block.len() >= channels,
            frames == block.len() / (channels as nat),
    ;
    let last = frame_peak(block, channels, frames - 1);
    let to = choose|to: Float32|
        after.env == flushed(to) && #[trigger] envelope(
            a,
            before.release,
            block,
            channels,
            frames,
            before.env,
            to,
        );
    lemma_envelope_bounds(a, before.release, block, channels, frames, before.env, to);
    lemma_greatest(block, (frames - 1) * channels, channels);
    if before.env.at_most(last) && (forall|f: int|
        0 <= f < frames ==> (#[trigger] frame_peak(block, channels, f)).at_most(last)) {
        assert(to.at_most(last)) by {
            if !to.at_most(before.env) {
                let f = choose|f: int|
                    0 <= f < frames && to.at_most(#[trigger] frame_peak(block, channels, f));
                assert(frame_peak(block, channels, f).at_most(last));
            }
        }
        assert(to.rank() == last.rank());
    }
}

/// What is left of a level after some frames of silence, one frame at a time.
pub open spec fn fades_out<A: Arithmetic>(
    a: A,
    release: Float32,
    from: Float32,
    frames: int,
    to: Float32,
) -> bool
    decreases frames,
{
    if frames <= 0 {
        to == from
    } else {
        exists|mid: Float32|
            fades_out(a, release, from, frames - 1, mid) && #[trigger] moves(
                a,
                release,
                mid,
                Float32 { bits: 0 },
                to,
            )
    }
}

proof fn lemma_silent_envelope<A: Arithmetic>(
    a: A,
    release: Float32,
    block: Seq<Float32>,
    channels: int,
    n: int,
    from: Float32,
    to: Float32,
)
    requires
        forall|f: int| 0 <= f < n ==> (#[trigger] frame_peak(block, channels, f)).bits == 0,
        envelope(a, release, block, channels, n, from, to),
    ensures
        fades_out(a, release, from, n, to),
    decreases n,
{
    if n > 0 {
        let mid = choose|mid: Float32|
            envelope(a, release, block, channels, n - 1, from, mid) && #[trigger] moves(
                a,
                release,
                mid,
                frame_peak(block, channels, n - 1),
                to,
            );
        lemma_silent_envelope(a, release, block, channels, n - 1, from, mid);
        assert(moves(a, release, mid, Float32 { bits: 0 }, to));
    }
}

/// Frames that do not come count as frames of silence: a meter that is told of so
/// many frames without a block falls as far as one that is given a block of as many
/// silent frames, and its clip light goes out as soon.
pub proof fn missing_frames_are_silent_frames<A: Arithmetic>(
    a: A,
    meter: PeakMeter,
    block: Seq<Float32>,
    channels: int,
    frames: usize,
    heard: PeakMeter,
    missed: PeakMeter,
)
    requires
        channels > 0,
        frames == block.len() / (channels as nat),
        forall|f: int| 0 <= f < frames ==> (#[trigger] frame_peak(block, channels, f)).bits == 0,
        observes(a, meter, block, channels, heard),
        waits(a, meter, frames, missed),
        forall|x: Float32, y: Float32, n: usize|
            #[trigger] call_ensures(A::decay, (&a, meter.env, meter.release, n), x)
                && #[trigger] fades_out(a, meter.release, meter.env, n as int, y) ==> x == y,
    ensures
        missed == heard,
{
    let to = choose|to: Float32|
        heard.env == flushed(to) && #[trigger] envelope(
            a,
            meter.release,
            block,
            channels,
            frames as int,
            meter.env,
            to,
        );
    lemma_silent_envelope(a, meter.release, block, channels, frames as int, meter.env, to);
    assert(!clips(block, channels, frames as int));
}

} // verus!
