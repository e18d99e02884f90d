//! The parametric equaliser: a row of filters, each of which lifts or lowers the
//! sound around one frequency.
use crate::chain::{check_bands, first_unfit};
use crate::dynamics::copy_block;
use crate::dsp::EqBandSpec;
use crate::float::Float32;
use crate::ramp::{
    at_rest, crossfades, frames_of, lemma_ramps_add, ramps, share, Arithmetic, BypassRamp, Coefficients,
    Memory, Smoothed,
};
use crate::resample::least;
use crate::sample::{DomainError, Format};
use vstd::prelude::*;

verus! {

/// Frames between two computations of the factors of a filter. They are too
/// dear for every frame, and what moves is not heard to move in steps so short.
pub const RECOMPUTE_FRAMES: usize = 32;

/// 1e-15: what a filter remembers of less than this is silence. Numbers much
/// smaller would make the arithmetic slow.
pub const DENORMAL_FLOOR_BITS: u32 = 0x2690_1d7d;

/// A remembered number, or zero where it is next to nothing.
pub open spec fn settled(z: Float32) -> Float32 {
    if z.magnitude() < DENORMAL_FLOOR_BITS {
        Float32 { bits: 0 }
    } else {
        z
    }
}

/// What a filter remembers, without what is next to nothing.
pub open spec fn settled_memory(memory: Memory) -> Memory {
    Memory { z1: settled(memory.z1), z2: settled(memory.z2) }
}

fn settle(z: Float32) -> (r: Float32)
    ensures
        r == settled(z),
{
    if z.abs().to_bits() < DENORMAL_FLOOR_BITS {
        Float32 { bits: 0 }
    } else {
        z
    }
}

/// A filter that has heard nothing.
pub open spec fn nothing_heard() -> Memory {
    Memory { z1: Float32 { bits: 0 }, z2: Float32 { bits: 0 } }
}

impl Memory {
    pub fn silent() -> (r: Memory)
        ensures
            r == nothing_heard(),
    {
        Memory { z1: Float32 { bits: 0 }, z2: Float32 { bits: 0 } }
    }

    /// Forgets what is next to nothing.
    pub fn flush_denormals(&mut self)
        ensures
            *final(self) == settled_memory(*old(self)),
    {
        self.z1 = settle(self.z1);
        self.z2 = settle(self.z2);
    }
}

/// One filter of the row, with the numbers that it is made from and what it
/// remembers of each channel.
#[derive(Debug)]
pub struct EqBand {
    pub freq: Smoothed,
    pub gain_db: Smoothed,
    pub q: Smoothed,
    pub memories: Vec<Memory>,
}

/// What an [`EqBand`] holds.
pub struct EqBandView {
    pub freq: Smoothed,
    pub gain_db: Smoothed,
    pub q: Smoothed,
    pub memories: Seq<Memory>,
}

impl DeepView for EqBand {
    type V = EqBandView;

    open spec fn deep_view(&self) -> EqBandView {
        EqBandView {
            freq: self.freq,
            gain_db: self.gain_db,
            q: self.q,
            memories: self.memories@,
        }
    }
}

/// What a band goes through.
pub struct BandCourse {
    /// The numbers that it is made from, frame by frame.
    pub freqs: Seq<Float32>,
    pub gains: Seq<Float32>,
    pub qs: Seq<Float32>,
    /// Its factors, one for each stretch of [`RECOMPUTE_FRAMES`] frames.
    pub coefficients: Seq<Coefficients>,
    /// What it remembers after each frame, channel by channel.
    pub memories: Seq<Seq<Memory>>,
}

/// The factors of stretch `k` are made from the numbers at its last frame.
pub open spec fn tuned_at<A: Arithmetic>(
    a: A,
    course: BandCourse,
    sample_rate: u32,
    n: int,
    k: int,
) -> bool {
    let last = least((k + 1) * RECOMPUTE_FRAMES, n) - 1;
    call_ensures(
        A::peaking,
        (&a, course.freqs[last], course.gains[last], course.qs[last], sample_rate),
        course.coefficients[k],
    )
}

/// What a band remembers before frame `f`.
pub open spec fn remembered(band: EqBandView, course: BandCourse, f: int) -> Seq<Memory> {
    if f <= 0 {
        band.memories
    } else {
        course.memories[f - 1]
    }
}

/// Channel `c` of frame `f`: one sample through the filter of its channel.
pub open spec fn filters_at<A: Arithmetic>(
    a: A,
    band: EqBandView,
    channels: int,
    block: Seq<Float32>,
    course: BandCourse,
    out: Seq<Float32>,
    f: int,
    c: int,
) -> bool {
    call_ensures(
        A::filter,
        (
            &a,
            course.coefficients[f / (RECOMPUTE_FRAMES as int)],
            remembered(band, course, f)[c],
            block[f * channels + c],
        ),
        (course.memories[f][c], out[f * channels + c]),
    )
}

/// A band can take a course through a block and make `out` of it.
pub open spec fn band_runs<A: Arithmetic>(
    a: A,
    band: EqBandView,
    sample_rate: u32,
    channels: int,
    block: Seq<Float32>,
    course: BandCourse,
    out: Seq<Float32>,
) -> bool {
    let n = block.len() as int / channels;
    &&& course.freqs.len() == n
    &&& course.gains.len() == n
    &&& course.qs.len() == n
    &&& ramps(a, band.freq, course.freqs)
    &&& ramps(a, band.gain_db, course.gains)
    &&& ramps(a, band.q, course.qs)
    &&& course.coefficients.len() == (n + RECOMPUTE_FRAMES - 1) / (RECOMPUTE_FRAMES as int)
    &&& forall|k: int|
        0 <= k < course.coefficients.len() ==> #[trigger] tuned_at(a, course, sample_rate, n, k)
    &&& course.memories.len() == n
    &&& forall|f: int| 0 <= f < n ==> (#[trigger] course.memories[f]).len() == channels
    &&& out.len() == block.len()
    &&& forall|f: int, c: int|
        0 <= f < n && 0 <= c < channels ==> #[trigger] filters_at(
            a,
            band,
            channels,
            block,
            course,
            out,
            f,
            c,
        )
    &&& forall|i: int| n * channels <= i < out.len() ==> #[trigger] out[i] == block[i]
}

/// The band where a course has left it.
pub open spec fn band_after(band: EqBandView, course: BandCourse) -> EqBandView {
    let memories = remembered(band, course, course.memories.len() as int);
    EqBandView {
        freq: band.freq.after(course.freqs),
        gain_db: band.gain_db.after(course.gains),
        q: band.q.after(course.qs),
        memories: Seq::new(memories.len(), |c: int| settled_memory(memories[c])),
    }
}

/// A band can make `out` of a block.
pub open spec fn band_filters<A: Arithmetic>(
    a: A,
    band: EqBandView,
    sample_rate: u32,
    channels: int,
    block: Seq<Float32>,
    after: EqBandView,
    out: Seq<Float32>,
) -> bool {
    exists|course: BandCourse| #[trigger]
        band_runs(a, band, sample_rate, channels, block, course, out) && after == band_after(
            band,
            course,
        )
}

/// One frame through the filters of a band, one for each channel.
fn filter_frame<A: Arithmetic>(
    a: &A,
    coefficients: Coefficients,
    memories: &mut Vec<Memory>,
    block: &mut Vec<Float32>,
    channels: usize,
    f: usize,
)
    requires
        (f + 1) * channels <= old(block)@.len(),
        old(memories)@.len() == channels,
    ensures
        final(memories)@.len() == channels,
        final(block)@.len() == old(block)@.len(),
        forall|c: int|
            0 <= c < channels ==> call_ensures(
                A::filter,
                (a, coefficients, old(memories)@[c], old(block)@[f * channels + c]),
                (#[trigger] final(memories)@[c], final(block)@[f * channels + c]),
            ),
        forall|i: int|
            0 <= i < f * channels || (f + 1) * channels <= i < final(block)@.len()
                ==> #[trigger] final(block)@[i] == old(block)@[i],
{
    let total: usize = block.len();
    assert((f + 1) * channels == f * channels + channels) by (nonlinear_arith);
    let start: usize = f * channels;
    let mut c: usize = 0;
    while c < channels
        invariant
            c <= channels,
            start == f * channels,
            start + channels <= total == block@.len() == old(block)@.len(),
            memories@.len() == channels == old(memories)@.len(),
            forall|d: int|
                0 <= d < c ==> call_ensures(
                    A::filter,
                    (a, coefficients, old(memories)@[d], old(block)@[start + d]),
                    (#[trigger] memories@[d], block@[start + d]),
                ),
            forall|d: int| c <= d < channels ==> #[trigger] memories@[d] == old(memories)@[d],
            forall|i: int|
                0 <= i < start || start + c <= i < total ==> #[trigger] block@[i] == old(
                    block)@[i],
        decreases channels - c,
    {
        let (memory, y) = a.filter(coefficients, memories[c], block[start + c]);
        memories.set(c, memory);
        block.set(start + c, y);
        c = c + 1;
    }
}

/// A band at rest at its numbers that has heard nothing.
pub open spec fn band_fresh<A: Arithmetic>(
    a: A,
    spec: EqBandSpec,
    sample_rate: u32,
    channels: nat,
    band: EqBandView,
) -> bool {
    &&& at_rest(a, spec.freq_hz, sample_rate, band.freq)
    &&& at_rest(a, spec.gain_db, sample_rate, band.gain_db)
    &&& at_rest(a, spec.q, sample_rate, band.q)
    &&& band.memories == Seq::new(channels, |c: int| nothing_heard())
}

/// A band on its way to other numbers.
pub open spec fn retuned(band: EqBandView, spec: EqBandSpec) -> EqBandView {
    EqBandView {
        freq: band.freq.toward(spec.freq_hz),
        gain_db: band.gain_db.toward(spec.gain_db),
        q: band.q.toward(spec.q),
        memories: band.memories,
    }
}

/// A sample of a frame comes before the frames that follow.
proof fn lemma_before(f: int, c: int, next: int, channels: int)
    requires
        0 <= f < next,
        0 <= c < channels,
    ensures
        0 <= f * channels + c < next * channels,
{
    assert(0 <= f * channels && f * channels + channels <= next * channels) by (nonlinear_arith)
        requires
            0 <= f < next,
            0 < channels,
    ;
}

impl EqBand {
    /// A band at rest at its numbers.
    pub fn new<A: Arithmetic>(a: &A, spec: EqBandSpec, sample_rate: u32, channels: usize) -> (r:
        EqBand)
        ensures
            band_fresh(*a, spec, sample_rate, channels as nat, r.deep_view()),
    {
        let mut memories: Vec<Memory> = Vec::new();
        let mut c: usize = 0;
        while c < channels
            invariant
                c <= channels,
                memories@ == Seq::new(c as nat, |d: int| nothing_heard()),
            decreases channels - c,
        {
            memories.push(Memory::silent());
            c = c + 1;
            assert(memories@ =~= Seq::new(c as nat, |d: int| nothing_heard()));
        }
        EqBand {
            freq: Smoothed::new(a, spec.freq_hz, sample_rate),
            gain_db: Smoothed::new(a, spec.gain_db, sample_rate),
            q: Smoothed::new(a, spec.q, sample_rate),
            memories,
        }
    }

    /// Other numbers to go to.
    pub fn set_target(&mut self, spec: EqBandSpec)
        ensures
            final(self).deep_view() == retuned(old(self).deep_view(), spec),
    {
        self.freq.set_target(spec.freq_hz);
        self.gain_db.set_target(spec.gain_db);
        self.q.set_target(spec.q);
    }

    fn flush(&mut self)
        ensures
            final(self).freq == old(self).freq,
            final(self).gain_db == old(self).gain_db,
            final(self).q == old(self).q,
            final(self).memories@ == Seq::new(
                old(self).memories@.len(),
                |c: int| settled_memory(old(self).memories@[c]),
            ),
    {
        let ghost first = self.memories@;
        let mut c: usize = 0;
        while c < self.memories.len()
            invariant
                c <= self.memories@.len() == first.len(),
                self.freq == old(self).freq,
                self.gain_db == old(self).gain_db,
                self.q == old(self).q,
                forall|d: int|
                    0 <= d < first.len() ==> #[trigger] self.memories@[d] == if d < c {
                        settled_memory(first[d])
                    } else {
                        first[d]
                    },
            decreases self.memories@.len() - c,
        {
            let mut memory = self.memories[c];
            memory.flush_denormals();
            self.memories.set(c, memory);
            c = c + 1;
        }
        assert(self.memories@ =~= Seq::new(first.len(), |c: int| settled_memory(first[c])));
    }

    /// Lets a block pass the filters of the band.
    pub fn run<A: Arithmetic>(
        &mut self,
        a: &A,
        sample_rate: u32,
        channels: usize,
        block: &mut Vec<Float32>,
    )
        requires
            channels > 0,
            old(self).memories@.len() == channels,
        ensures
            final(self).memories@.len() == channels,
            band_filters(
                *a,
                old(self).deep_view(),
                sample_rate,
                channels as int,
                old(block)@,
                final(self).deep_view(),
                final(block)@,
            ),
    {
        let ghost first = self.deep_view();
        let ghost start = block@;
        let total: usize = block.len();
        let frames: usize = frames_of(total, channels);
        let ghost mut course = BandCourse {
            freqs: Seq::empty(),
            gains: Seq::empty(),
            qs: Seq::empty(),
            coefficients: Seq::empty(),
            memories: Seq::empty(),
        };
        let mut pos: usize = 0;
        while pos < frames
            invariant
                pos <= frames,
                channels > 0,
                frames * channels <= total == block@.len() == start.len(),
                pos == least(course.coefficients.len() * RECOMPUTE_FRAMES, frames as int),
                (course.coefficients.len() - 1) * RECOMPUTE_FRAMES < frames,
                course.freqs.len() == pos,
                course.gains.len() == pos,
                course.qs.len() == pos,
                course.memories.len() == pos,
                ramps(*a, first.freq, course.freqs),
                ramps(*a, first.gain_db, course.gains),
                ramps(*a, first.q, course.qs),
                self.freq == first.freq.after(course.freqs),
                self.gain_db == first.gain_db.after(course.gains),
                self.q == first.q.after(course.qs),
                self.memories@ == remembered(first, course, pos as int),
                self.memories@.len() == channels,
                forall|f: int| 0 <= f < pos ==> (#[trigger] course.memories[f]).len() == channels,
                forall|k: int|
                    0 <= k < course.coefficients.len() ==> #[trigger] tuned_at(
                        *a,
                        course,
                        sample_rate,
                        frames as int,
                        k,
                    ),
                forall|f: int, c: int|
                    0 <= f < pos && 0 <= c < channels ==> #[trigger] filters_at(
                        *a,
                        first,
                        channels as int,
                        start,
                        course,
                        block@,
                        f,
                        c,
                    ),
                forall|i: int| pos * channels <= i < total ==> #[trigger] block@[i] == start[i],
            decreases frames - pos,
        {
            let left: usize = frames - pos;
            let chunk: usize = if RECOMPUTE_FRAMES <= left {
                RECOMPUTE_FRAMES
            } else {
                left
            };
            let ghost kept = course;
            let ghost before = (self.freq, self.gain_db, self.q);
            self.freq.advance(a, chunk);
            self.gain_db.advance(a, chunk);
            self.q.advance(a, chunk);
            let coefficients: Coefficients = a.peaking(
                self.freq.current,
                self.gain_db.current,
                self.q.current,
                sample_rate,
            );
            proof {
                let fs = choose|s: Seq<Float32>| #[trigger]
                    ramps(*a, before.0, s) && s.len() == chunk && self.freq == before.0.after(s);
                let gs = choose|s: Seq<Float32>| #[trigger]
                    ramps(*a, before.1, s) && s.len() == chunk && self.gain_db == before.1.after(s);
                let qs = choose|s: Seq<Float32>| #[trigger]
                    ramps(*a, before.2, s) && s.len() == chunk && self.q == before.2.after(s);
                lemma_ramps_add(*a, first.freq, course.freqs, fs);
                lemma_ramps_add(*a, first.gain_db, course.gains, gs);
                lemma_ramps_add(*a, first.q, course.qs, qs);
                course = BandCourse {
                    freqs: course.freqs + fs,
                    gains: course.gains + gs,
                    qs: course.qs + qs,
                    coefficients: course.coefficients.push(coefficients),
                    memories: course.memories,
                };
                assert forall|k: int| 0 <= k < course.coefficients.len() implies #[trigger] tuned_at(
                    *a,
                    course,
                    sample_rate,
                    frames as int,
                    k,
                ) by {
                    if k < kept.coefficients.len() {
                        assert(tuned_at(*a, kept, sample_rate, frames as int, k));
                    }
                }
                assert forall|f: int, c: int| 0 <= f < pos && 0 <= c < channels implies
                    #[trigger] filters_at(
                    *a,
                    first,
                    channels as int,
                    start,
                    course,
                    block@,
                    f,
                    c,
                ) by {
                    assert(filters_at(*a, first, channels as int, start, kept, block@, f, c));
                }
            }
            let ghost tuned = course;
            let ghost ramped = (self.freq, self.gain_db, self.q);
            let mut g: usize = 0;
            while g < chunk
                invariant
                    g <= chunk,
                    chunk <= RECOMPUTE_FRAMES,
                    pos + chunk <= frames,
                    channels > 0,
                    frames * channels <= total == block@.len() == start.len(),
                    course.coefficients.len() > 0,
                    pos == (course.coefficients.len() - 1) * RECOMPUTE_FRAMES,
                    course.coefficients.last() == coefficients,
                    course.memories.len() == pos + g,
                    self.memories@ == remembered(first, course, pos + g),
                    self.memories@.len() == channels,
                    forall|f: int|
                        0 <= f < pos + g ==> (#[trigger] course.memories[f]).len() == channels,
                    forall|f: int, c: int|
                        0 <= f < pos + g && 0 <= c < channels ==> #[trigger] filters_at(
                            *a,
                            first,
                            channels as int,
                            start,
                            course,
                            block@,
                            f,
                            c,
                        ),
                    forall|i: int|
                        (pos + g) * channels <= i < total ==> #[trigger] block@[i] == start[i],
                    course == (BandCourse { memories: course.memories, ..tuned }),
                    self.freq == ramped.0 && self.gain_db == ramped.1 && self.q == ramped.2,
                decreases chunk - g,
            {
                let f: usize = pos + g;
                assert((f + 1) * channels <= frames * channels && (f + 1) * channels == f
                    * channels + channels) by (nonlinear_arith)
                    requires
                        f < frames,
                ;
                let ghost so_far = block@;
                let ghost earlier_course = course;
                filter_frame(a, coefficients, &mut self.memories, block, channels, f);
                proof {
                    course = BandCourse {
                        memories: course.memories.push(self.memories@),
                        ..course
                    };
                    assert(f as int / (RECOMPUTE_FRAMES as int) == course.coefficients.len() - 1);
                    assert forall|h: int, c: int|
                        0 <= h < f + 1 && 0 <= c < channels implies #[trigger] filters_at(
                        *a,
                        first,
                        channels as int,
                        start,
                        course,
                        block@,
                        h,
                        c,
                    ) by {
                        if h < f {
                            assert(filters_at(
                                *a,
                                first,
                                channels as int,
                                start,
                                earlier_course,
                                so_far,
                                h,
                                c,
                            ));
                            lemma_before(h, c, f as int, channels as int);
                        } else {
                            assert(so_far[f * channels + c] == start[f * channels + c]);
                            assert(self.memories@[c] == course.memories[f as int][c]);
                        }
                    }
                }
                g = g + 1;
            }
            pos = pos + chunk;
            assert forall|k: int| 0 <= k < course.coefficients.len() implies #[trigger] tuned_at(
                *a,
                course,
                sample_rate,
                frames as int,
                k,
            ) by {
                assert(tuned_at(*a, tuned, sample_rate, frames as int, k));
            }
        }
        self.flush();
        proof {
            assert(band_runs(
                *a,
                first,
                sample_rate,
                channels as int,
                start,
                course,
                block@,
            ));
            assert(self.deep_view().memories =~= band_after(first, course).memories);
        }
    }
}

/// A row of bands, all in series.
#[derive(Debug)]
pub struct ParametricEq {
    pub bands: Vec<EqBand>,
    pub channels: usize,
    pub sample_rate: u32,
    pub bypass: BypassRamp,
}

/// What a [`ParametricEq`] holds.
pub struct ParametricEqView {
    pub bands: Seq<EqBandView>,
    pub channels: usize,
    pub sample_rate: u32,
    pub bypass: BypassRamp,
}

impl DeepView for ParametricEq {
    type V = ParametricEqView;

    open spec fn deep_view(&self) -> ParametricEqView {
        ParametricEqView {
            bands: self.bands.deep_view(),
            channels: self.channels,
            sample_rate: self.sample_rate,
            bypass: self.bypass,
        }
    }
}

impl ParametricEqView {
    /// Every band remembers each of the channels.
    pub open spec fn wf(self) -> bool {
        self.channels > 0 && forall|b: int|
            0 <= b < self.bands.len() ==> (#[trigger] self.bands[b]).memories.len()
                == self.channels
    }
}

/// An equaliser whose bands are at rest at their numbers.
pub open spec fn eq_fresh<A: Arithmetic>(
    a: A,
    bands: Seq<EqBandSpec>,
    fmt: Format,
    eq: ParametricEqView,
) -> bool {
    &&& eq.channels == fmt.channels
    &&& eq.sample_rate == fmt.sample_rate
    &&& at_rest(a, share(false), fmt.sample_rate, eq.bypass.mix)
    &&& eq.bands.len() == bands.len()
    &&& forall|b: int|
        0 <= b < bands.len() ==> band_fresh(
            a,
            bands[b],
            fmt.sample_rate,
            fmt.channels as nat,
            #[trigger] eq.bands[b],
        )
}

/// What goes into band `b` of a row, and what comes out of it.
pub open spec fn passes_band<A: Arithmetic>(
    a: A,
    eq: ParametricEqView,
    signals: Seq<Seq<Float32>>,
    after: ParametricEqView,
    b: int,
) -> bool {
    band_filters(
        a,
        eq.bands[b],
        eq.sample_rate,
        eq.channels as int,
        signals[b],
        after.bands[b],
        signals[b + 1],
    )
}

/// A row can take the signals from the block on, band by band.
pub open spec fn row_runs<A: Arithmetic>(
    a: A,
    eq: ParametricEqView,
    block: Seq<Float32>,
    signals: Seq<Seq<Float32>>,
    after: ParametricEqView,
) -> bool {
    &&& signals.len() == eq.bands.len() + 1
    &&& signals[0] == block
    &&& after.bands.len() == eq.bands.len()
    &&& forall|b: int| 0 <= b < eq.bands.len() ==> #[trigger] passes_band(a, eq, signals, after, b)
}

/// An equaliser can make `out` of a block: every band of what the band before
/// it made, and then the fade to the sound before.
pub open spec fn equalized<A: Arithmetic>(
    a: A,
    eq: ParametricEqView,
    block: Seq<Float32>,
    after: ParametricEqView,
    out: Seq<Float32>,
) -> bool {
    &&& after.channels == eq.channels
    &&& after.sample_rate == eq.sample_rate
    &&& exists|signals: Seq<Seq<Float32>>| #[trigger]
        row_runs(a, eq, block, signals, after) && crossfades(
            a,
            eq.bypass.mix,
            block,
            signals.last(),
            eq.channels as int,
            after.bypass.mix,
            out,
        )
}

/// An equaliser with one band on its way to other numbers. A band that is not
/// there is passed over.
pub open spec fn eq_retuned(eq: ParametricEqView, band: int, spec: EqBandSpec) -> ParametricEqView {
    if 0 <= band < eq.bands.len() {
        ParametricEqView { bands: eq.bands.update(band, retuned(eq.bands[band], spec)), ..eq }
    } else {
        eq
    }
}

/// A band that has forgotten what it heard.
pub open spec fn band_cleared(band: EqBandView) -> EqBandView {
    EqBandView { memories: Seq::new(band.memories.len(), |c: int| nothing_heard()), ..band }
}

impl EqBand {
    fn clear(&mut self)
        ensures
            final(self).deep_view() == band_cleared(old(self).deep_view()),
    {
        let ghost first = self.memories@;
        let mut c: usize = 0;
        while c < self.memories.len()
            invariant
                c <= self.memories@.len() == first.len(),
                self.freq == old(self).freq,
                self.gain_db == old(self).gain_db,
                self.q == old(self).q,
                forall|d: int| 0 <= d < c ==> #[trigger] self.memories@[d] == nothing_heard(),
            decreases self.memories@.len() - c,
        {
            self.memories.set(c, Memory::silent());
            c = c + 1;
        }
        assert(self.memories@ =~= Seq::new(first.len(), |c: int| nothing_heard()));
    }
}

impl ParametricEq {
    /// Whether every band remembers each of the channels.
    pub fn is_sound(&self) -> (r: bool)
        ensures
            r == self.deep_view().wf(),
    {
        if self.channels == 0 {
            return false;
        }
        let mut b: usize = 0;
        while b < self.bands.len()
            invariant
                b <= self.bands@.len(),
                self.channels > 0,
                forall|d: int|
                    0 <= d < b ==> (#[trigger] self.deep_view().bands[d]).memories.len()
                        == self.channels,
            decreases self.bands@.len() - b,
        {
            assert(self.deep_view().bands[b as int] == self.bands@[b as int].deep_view());
            if self.bands[b].memories.len() != self.channels {
                return false;
            }
            b = b + 1;
        }
        true
    }

    /// An equaliser whose bands rest at their numbers, whatever those are.
    pub fn at_rest<A: Arithmetic>(a: &A, bands: &Vec<EqBandSpec>, fmt: Format) -> (r: ParametricEq)
        requires
            fmt.channels > 0,
        ensures
            r.deep_view().wf(),
            eq_fresh(*a, bands@, fmt, r.deep_view()),
    {
        let channels: usize = fmt.channels as usize;
        let mut row: Vec<EqBand> = Vec::new();
        let mut b: usize = 0;
        while b < bands.len()
            invariant
                b <= bands@.len(),
                channels == fmt.channels,
                row@.len() == b,
                forall|d: int|
                    0 <= d < b ==> band_fresh(
                        *a,
                        bands@[d],
                        fmt.sample_rate,
                        channels as nat,
                        #[trigger] row.deep_view()[d],
                    ),
            decreases bands@.len() - b,
        {
            let ghost before = row.deep_view();
            let band = EqBand::new(a, bands[b], fmt.sample_rate, channels);
            row.push(band);
            b = b + 1;
            assert(row.deep_view() =~= before.push(band.deep_view()));
        }
        ParametricEq {
            bands: row,
            channels,
            sample_rate: fmt.sample_rate,
            bypass: BypassRamp::new(a, fmt.sample_rate),
        }
    }

    /// An equaliser, refused where a band cannot be built at the sample rate.
    pub fn new<A: Arithmetic>(a: &A, bands: &Vec<EqBandSpec>, fmt: Format) -> (r: Result<
        ParametricEq,
        DomainError,
    >)
        requires
            fmt.channels > 0,
        ensures
            match first_unfit(bands.deep_view(), fmt.sample_rate as nat, 0) {
                None => r matches Ok(eq) && eq.deep_view().wf() && eq_fresh(
                    *a,
                    bands@,
                    fmt,
                    eq.deep_view(),
                ),
                Some(band) => r == Err::<ParametricEq, DomainError>(
                    DomainError::InvalidEqBand { freq_hz: band.freq_hz, q: band.q },
                ),
            },
    {
        match check_bands(bands, fmt.sample_rate) {
            Ok(()) => Ok(ParametricEq::at_rest(a, bands, fmt)),
            Err(e) => Err(e),
        }
    }

    pub fn process<A: Arithmetic>(&mut self, a: &A, block: &mut Vec<Float32>)
        requires
            old(self).deep_view().wf(),
        ensures
            final(self).deep_view().wf(),
            equalized(*a, old(self).deep_view(), old(block)@, final(self).deep_view(), final(block)@),
    {
        let ghost first = self.deep_view();
        let ghost start = block@;
        let dry = copy_block(block);
        let channels: usize = self.channels;
        let sample_rate: u32 = self.sample_rate;
        let count: usize = self.bands.len();
        let ghost mut signals: Seq<Seq<Float32>> = seq![start];
        let mut b: usize = 0;
        while b < count
            invariant
                b <= count,
                count == self.bands@.len() == first.bands.len(),
                channels > 0,
                first.wf(),
                channels == first.channels == self.channels,
                sample_rate == first.sample_rate == self.sample_rate,
                self.bypass == first.bypass,
                self.deep_view().wf(),
                dry@ == start,
                block@.len() == start.len(),
                signals.len() == b + 1,
                signals[0] == start,
                signals.last() == block@,
                forall|d: int|
                    0 <= d < b ==> #[trigger] passes_band(
                        *a,
                        first,
                        signals,
                        self.deep_view(),
                        d,
                    ),
                forall|d: int| b <= d < count ==> #[trigger] self.deep_view().bands[d] == first.bands[d],
            decreases count - b,
        {
            let ghost before = self.deep_view();
            let ghost kept = signals;
            assert(before.bands[b as int] == self.bands@[b as int].deep_view());
            self.bands[b].run(a, sample_rate, channels, block);
            proof {
                signals = signals.push(block@);
                assert(self.deep_view().bands =~= before.bands.update(
                    b as int,
                    self.bands@[b as int].deep_view(),
                ));
                assert forall|d: int| 0 <= d < b + 1 implies #[trigger] passes_band(
                    *a,
                    first,
                    signals,
                    self.deep_view(),
                    d,
                ) by {
                    if d < b {
                        assert(passes_band(*a, first, kept, before, d));
                    }
                }
            }
            b = b + 1;
        }
        let ghost rested = self.deep_view();
        self.bypass.crossfade(a, &dry, block, channels);
        proof {
            assert(self.deep_view().bands =~= rested.bands);
            assert forall|d: int| 0 <= d < count implies #[trigger] passes_band(
                *a,
                first,
                signals,
                self.deep_view(),
                d,
            ) by {
                assert(passes_band(*a, first, signals, rested, d));
            }
            assert(row_runs(*a, first, start, signals, self.deep_view()));
        }
    }

    /// Other numbers for one band to go to.
    pub fn set_band(&mut self, band: usize, spec: EqBandSpec)
        ensures
            final(self).deep_view() == eq_retuned(old(self).deep_view(), band as int, spec),
    {
        if band < self.bands.len() {
            let ghost before = self.deep_view();
            assert(before.bands[band as int] == self.bands@[band as int].deep_view());
            self.bands[band].set_target(spec);
            assert(self.deep_view().bands =~= eq_retuned(before, band as int, spec).bands);
        }
    }

    pub fn set_bypass(&mut self, bypassed: bool)
        ensures
            final(self).deep_view() == (ParametricEqView {
                bypass: old(self).bypass.toward(bypassed),
                ..old(self).deep_view()
            }),
    {
        self.bypass.set_bypassed(bypassed);
    }

    /// Forgets what was heard.
    pub fn reset(&mut self)
        ensures
            final(self).deep_view() == (ParametricEqView {
                bands: old(self).deep_view().bands.map_values(
                    |band: EqBandView| band_cleared(band),
                ),
                ..old(self).deep_view()
            }),
    {
        let ghost first = self.deep_view();
        let mut b: usize = 0;
        while b < self.bands.len()
            invariant
                b <= self.bands@.len() == first.bands.len(),
                self.deep_view() == (ParametricEqView { bands: self.deep_view().bands, ..first }),
                forall|d: int|
                    0 <= d < first.bands.len() ==> #[trigger] self.deep_view().bands[d] == if d < b {
                        band_cleared(first.bands[d])
                    } else {
                        first.bands[d]
                    },
            decreases self.bands@.len() - b,
        {
            let ghost before = self.deep_view().bands;
            assert(before[b as int] == self.bands@[b as int].deep_view());
            self.bands[b].clear();
            assert(self.deep_view().bands =~= before.update(
                b as int,
                self.bands@[b as int].deep_view(),
            ));
            b = b + 1;
        }
        assert(self.deep_view().bands =~= first.bands.map_values(
            |band: EqBandView| band_cleared(band),
        ));
    }
}

} // verus!
