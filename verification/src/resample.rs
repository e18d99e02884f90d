//! The buffering around a resampler that works on whole chunks: input waits
//! until it makes a chunk, output waits until the caller has room for it.
use crate::convolve::rows;
use crate::float::Float64;
use crate::sample::{DomainError, Format, ResampleRatio};
use vstd::prelude::*;

verus! {

/// How far one [`Src::process`] came, in interleaved samples.
#[derive(Debug, Clone, Copy, PartialEq, Eq, Structural)]
pub struct SrcProgress {
    pub consumed: usize,
    pub produced: usize,
}

/// What turns the chunks of several lines into output at other rates.
pub trait Resampler<T>: Sized {
    /// The resampler after the next chunk of one line, and the output for it,
    /// channel by channel both.
    fn resample(self, line: usize, channels: Vec<Vec<T>>, ratio: ResampleRatio) -> (
        Self,
        Vec<Vec<T>>,
    );
}

/// Interleaved samples, channel by channel.
pub open spec fn parted<T>(samples: Seq<T>, channels: nat) -> Seq<Seq<T>> {
    Seq::new(
        channels,
        |c: int| Seq::new(samples.len() / channels, |f: int| samples[f * channels + c]),
    )
}

/// The length of the shortest of the first `n` channels.
pub open spec fn shortest<T>(channels: Seq<Seq<T>>, n: int) -> nat
    decreases n,
{
    if n <= 1 {
        channels[0].len()
    } else {
        least(shortest(channels, n - 1) as int, channels[n - 1].len() as int) as nat
    }
}

/// The whole frames of some channels.
pub open spec fn frames_in<T>(channels: Seq<Seq<T>>) -> nat {
    if channels.len() == 0 {
        0
    } else {
        shortest(channels, channels.len() as int)
    }
}

/// Whole frames of some channels, interleaved.
pub open spec fn woven<T>(channels: Seq<Seq<T>>) -> Seq<T> {
    Seq::new(
        frames_in(channels) * channels.len(),
        |i: int| channels[i % (channels.len() as int)][i / (channels.len() as int)],
    )
}

/// A resampler can answer an interleaved chunk of one line with `out` and be
/// `after` then.
pub open spec fn resamples<T, R: Resampler<T>>(
    r: R,
    line: usize,
    channels: nat,
    chunk: Seq<T>,
    ratio: Float64,
    after: R,
    out: Seq<T>,
) -> bool {
    exists|asked: (Vec<Vec<T>>, ResampleRatio), answer: Vec<Vec<T>>|
        #![trigger call_ensures(R::resample, (r, line, asked.0, asked.1), (after, answer))]
        rows(asked.0@) == parted(chunk, channels) && asked.1.deep_view() == ratio && out == woven(
            rows(answer@),
        ) && call_ensures(R::resample, (r, line, asked.0, asked.1), (after, answer))
}

/// Interleaved samples, channel by channel.
fn part<T: Copy>(samples: &Vec<T>, channels: usize) -> (r: Vec<Vec<T>>)
    requires
        channels >= 1,
    ensures
        rows(r@) == parted(samples@, channels as nat),
{
    let total: usize = samples.len();
    let frames: usize = total / channels;
    let mut out: Vec<Vec<T>> = Vec::new();
    let mut c: usize = 0;
    proof {
        vstd::arithmetic::div_mod::lemma_fundamental_div_mod(
            samples@.len() as int,
            channels as int,
        );
        assert(frames * channels == channels * frames) by (nonlinear_arith);
    }
    while c < channels
        invariant
            c <= channels,
            1 <= channels,
            frames == samples@.len() / channels as nat,
            frames * channels <= total == samples@.len(),
            out@.len() == c,
            forall|d: int|
                0 <= d < c ==> (#[trigger] out@[d])@ == parted(samples@, channels as nat)[d],
        decreases channels - c,
    {
        let mut one: Vec<T> = Vec::new();
        let mut f: usize = 0;
        while f < frames
            invariant
                f <= frames,
                c < channels,
                frames == samples@.len() / channels as nat,
                frames * channels <= total == samples@.len(),
                one@ == parted(samples@, channels as nat)[c as int].take(f as int),
            decreases frames - f,
        {
            assert(f * channels + channels <= frames * channels) by (nonlinear_arith)
                requires
                    f < frames,
            ;
            one.push(samples[f * channels + c]);
            f = f + 1;
            assert(one@ =~= parted(samples@, channels as nat)[c as int].take(f as int));
        }
        assert(one@ =~= parted(samples@, channels as nat)[c as int]);
        out.push(one);
        c = c + 1;
    }
    assert(rows(out@) =~= parted(samples@, channels as nat));
    out
}

/// Whole frames of some channels, interleaved.
fn weave<T: Copy>(channels: &Vec<Vec<T>>) -> (r: Vec<T>)
    ensures
        r@ == woven(rows(channels@)),
{
    let ghost all = rows(channels@);
    let n: usize = channels.len();
    let mut out: Vec<T> = Vec::new();
    if n == 0 {
        assert(out@ =~= woven(all)) by {
            assert(frames_in(all) * all.len() == 0) by (nonlinear_arith)
                requires
                    all.len() == 0,
            ;
        }
        return out;
    }
    let mut frames: usize = channels[0].len();
    let mut c: usize = 1;
    while c < n
        invariant
            1 <= c <= n == channels@.len(),
            all == rows(channels@),
            frames == shortest(all, c as int),
            forall|d: int| 0 <= d < c ==> frames <= (#[trigger] channels@[d])@.len(),
        decreases n - c,
    {
        if channels[c].len() < frames {
            frames = channels[c].len();
        }
        c = c + 1;
    }
    let mut f: usize = 0;
    assert(0 * n == 0) by (nonlinear_arith);
    assert(frames_in(all) == frames);
    assert(woven(all).len() == frames * n);
    while f < frames
        invariant
            1 <= n == channels@.len(),
            all == rows(channels@),
            frames == frames_in(all),
            f <= frames,
            woven(all).len() == frames * n,
            0 <= f * n <= frames * n,
            forall|d: int| 0 <= d < n ==> frames <= (#[trigger] channels@[d])@.len(),
            out@ == woven(all).take(f * n),
        decreases frames - f,
    {
        assert(f * n + n <= frames * n && (f + 1) * n == f * n + n) by (nonlinear_arith)
            requires
                f < frames,
        ;
        let mut c: usize = 0;
        while c < n
            invariant
                1 <= n == channels@.len(),
                all == rows(channels@),
                c <= n,
                f < frames == frames_in(all),
                0 <= f * n,
                f * n + n <= frames * n == woven(all).len(),
                forall|d: int| 0 <= d < n ==> frames <= (#[trigger] channels@[d])@.len(),
                out@ == woven(all).take(f * n + c),
            decreases n - c,
        {
            let x = channels[c][f];
            out.push(x);
            proof {
                let i = f * n + c;
                vstd::arithmetic::div_mod::lemma_fundamental_div_mod_converse(
                    i,
                    n as int,
                    f as int,
                    c as int,
                );
                assert(woven(all)[i] == all[c as int][f as int]);
                assert(out@ =~= woven(all).take(i + 1));
            }
            c = c + 1;
        }
        f = f + 1;
    }
    assert(out@ =~= woven(all));
    out
}

/// The frames that one block can become at another rate: the block stretched
/// by the two rates and by the widest drift correction, which is one ninth,
/// rounded up, and ten frames more for the resampler's own delay.
pub open spec fn stretched(frames: nat, from_rate: nat, to_rate: nat) -> nat {
    let per = 9 * (if from_rate == 0 {
        1
    } else {
        from_rate
    });
    (frames * to_rate * 10 + per - 1) as nat / per + 10
}

/// The most frames that a block of `max_block_frames` can become.
pub fn max_output_block_frames(max_block_frames: usize, from_rate: u32, to_rate: u32) -> (r: usize)
    requires
        stretched(max_block_frames as nat, from_rate as nat, to_rate as nat) <= usize::MAX,
    ensures
        r == stretched(max_block_frames as nat, from_rate as nat, to_rate as nat),
{
    let rate: u128 = if from_rate == 0 {
        1
    } else {
        from_rate as u128
    };
    let per: u128 = 9 * rate;
    assert(max_block_frames * to_rate <= 0xffff_ffff_ffff_ffff * 0xffff_ffff) by (nonlinear_arith)
        requires
            0 <= max_block_frames <= 0xffff_ffff_ffff_ffff,
            0 <= to_rate <= 0xffff_ffff,
    ;
    let product: u128 = max_block_frames as u128 * to_rate as u128;
    let all: u128 = product * 10 + per - 1;
    (all / per + 10) as usize
}

/// A resampler's buffers. All sizes are in interleaved samples.
#[derive(Debug)]
pub struct Src<T> {
    pub channels: usize,
    /// Samples that make a chunk.
    pub chunk: usize,
    /// Input that does not make a chunk yet.
    pub pending_in: Vec<T>,
    /// Output of the last chunk.
    pub pending_out: Vec<T>,
    /// How much of it was delivered.
    pub pending_out_read: usize,
    /// The drift correction that the resampler glides to.
    pub ratio: ResampleRatio,
}

/// What is left of one step of [`Src::step`].
#[derive(Debug, Clone, Copy, PartialEq, Eq, Structural)]
pub enum SrcStep {
    /// A chunk is full: resample it and hand in the result.
    Resample,
    /// No chunk is full, or there is no room for more output.
    Done,
}

pub open spec fn least(a: int, b: int) -> int {
    if a <= b {
        a
    } else {
        b
    }
}

/// What stands at both ends of a resampler: input that makes no chunk yet and
/// how much more was taken in, output that waits, and output that was
/// delivered.
#[verifier::ext_equal]
pub struct Feed<T> {
    pub pending: Seq<T>,
    pub waiting: Seq<T>,
    pub consumed: nat,
    pub output: Seq<T>,
}

/// What waits is delivered as far as there is room; where that leaves room,
/// input is taken in as far as the chunk has room.
pub open spec fn fed<T>(f: Feed<T>, chunk: nat, input: Seq<T>, room: nat) -> Feed<T> {
    let given = least(f.waiting.len() as int, room - f.output.len());
    let output = f.output + f.waiting.take(given);
    let taken = if output.len() < room {
        least(chunk - f.pending.len(), input.len() - f.consumed)
    } else {
        0
    };
    Feed {
        pending: f.pending + input.subrange(f.consumed as int, f.consumed + taken),
        waiting: f.waiting.skip(given),
        consumed: (f.consumed + taken) as nat,
        output,
    }
}

/// A chunk is full and there is room for what it becomes.
pub open spec fn is_due<T>(f: Feed<T>, chunk: nat, room: nat) -> bool {
    f.output.len() < room && f.pending.len() == chunk
}

/// Where a resampler and its two ends can come to: as long as a chunk is due it
/// is resampled, what it becomes is delivered, and input is taken in.
pub open spec fn ran<T, R: Resampler<T>>(
    r: R,
    line: usize,
    channels: nat,
    ratio: Float64,
    chunk: nat,
    input: Seq<T>,
    room: nat,
    f: Feed<T>,
    after: R,
    end: Feed<T>,
) -> bool
    decreases
            input.len() - f.consumed,
            if is_due(f, chunk, room) {
                1int
            } else {
                0
            },
{
    if chunk >= 1 && f.consumed <= input.len() && is_due(f, chunk, room) {
        exists|next: (R, Seq<T>)|
            #![trigger resamples(r, line, channels, f.pending, ratio, next.0, next.1)]
            resamples(r, line, channels, f.pending, ratio, next.0, next.1) && ran(
                next.0,
                line,
                channels,
                ratio,
                chunk,
                input,
                room,
                fed(
                    Feed {
                        pending: Seq::empty(),
                        waiting: next.1,
                        consumed: f.consumed,
                        output: f.output,
                    },
                    chunk,
                    input,
                    room,
                ),
                after,
                end,
            )
    } else {
        after == r && end == f
    }
}

impl<T> Src<T> {
    /// What stands at both ends.
    pub open spec fn feed(&self, consumed: nat, output: Seq<T>) -> Feed<T> {
        Feed { pending: self.pending_in@, waiting: self.waiting(), consumed, output }
    }

    pub open spec fn wf(&self) -> bool {
        &&& 1 <= self.channels
        &&& 1 <= self.chunk
        &&& self.pending_in@.len() <= self.chunk
        &&& self.pending_out_read <= self.pending_out@.len()
    }

    /// Output that waits for room.
    pub open spec fn waiting(&self) -> Seq<T> {
        self.pending_out@.skip(self.pending_out_read as int)
    }

    /// Something has gone in that has not come out.
    pub open spec fn in_flight(&self) -> bool {
        self.pending_in@.len() > 0 || self.waiting().len() > 0
    }

    /// Buffers between two formats, which must have as many channels.
    pub fn new(from: Format, to: Format, max_block_frames: usize) -> (r: Result<
        Src<T>,
        DomainError,
    >)
        requires
            max_block_frames * from.channels <= usize::MAX,
        ensures
            from.channels != to.channels ==> r == Err::<Src<T>, DomainError>(
                DomainError::ChannelMismatch { from: from.channels, to: to.channels },
            ),
            from.channels == to.channels ==> {
                &&& r matches Ok(src)
                &&& from.channels > 0 ==> src.wf()
                &&& src.channels == from.channels
                &&& src.chunk == (if max_block_frames == 0 {
                    1
                } else {
                    max_block_frames
                }) * from.channels
                &&& !src.in_flight()
                &&& src.ratio.deep_view() == (Float64 { bits: 0x3ff0_0000_0000_0000 })
            },
    {
        if from.channels != to.channels {
            return Err(DomainError::ChannelMismatch { from: from.channels, to: to.channels });
        }
        let channels: usize = from.channels as usize;
        let frames: usize = if max_block_frames == 0 {
            1
        } else {
            max_block_frames
        };
        assert(channels > 0 ==> 1 <= frames * channels) by (nonlinear_arith)
            requires
                1 <= frames,
        ;
        let src = Src {
            channels,
            chunk: frames * channels,
            pending_in: Vec::new(),
            pending_out: Vec::new(),
            pending_out_read: 0,
            ratio: ResampleRatio::unity(),
        };
        Ok(src)
    }

    /// Sets the drift correction to glide to.
    pub fn set_ratio(&mut self, target: ResampleRatio)
        ensures
            *final(self) == (Src { ratio: target, ..*old(self) }),
    {
        self.ratio = target;
    }

    /// Whether something has gone in that has not come out.
    pub fn has_audio_in_flight(&self) -> (r: bool)
        requires
            self.wf(),
        ensures
            r == self.in_flight(),
    {
        self.pending_in.len() > 0 || self.pending_out_read < self.pending_out.len()
    }

    /// Forgets the input that does not make a chunk.
    pub fn discard_partial_input(&mut self)
        requires
            old(self).wf(),
        ensures
            final(self).wf(),
            final(self).pending_in@.len() == 0,
            final(self).waiting() == old(self).waiting(),
            final(self).channels == old(self).channels,
            final(self).chunk == old(self).chunk,
            final(self).ratio == old(self).ratio,
    {
        self.pending_in.clear();
    }
}

impl<T: Copy> Src<T> {
    /// Delivers what waits, as far as `output` has room, and returns how much.
    fn drain_pending_out(&mut self, output: &mut Vec<T>, room: usize) -> (r: usize)
        requires
            old(self).wf(),
            old(output)@.len() <= room,
        ensures
            final(self).wf(),
            r == least(old(self).waiting().len() as int, room - old(output)@.len()),
            final(output)@ == old(output)@ + old(self).waiting().take(r as int),
            final(self).waiting() == old(self).waiting().skip(r as int),
            final(self).pending_in == old(self).pending_in,
            final(self).channels == old(self).channels,
            final(self).chunk == old(self).chunk,
            final(self).ratio == old(self).ratio,
    {
        let avail: usize = self.pending_out.len() - self.pending_out_read;
        let free: usize = room - output.len();
        let n: usize = if avail <= free {
            avail
        } else {
            free
        };
        let start: usize = self.pending_out_read;
        let total: usize = self.pending_out.len();
        let mut i: usize = 0;
        while i < n
            invariant
                i <= n,
                start + n <= total == self.pending_out@.len(),
                *self == *old(self),
                start == self.pending_out_read,
                output@ == old(output)@ + self.waiting().take(i as int),
            decreases n - i,
        {
            output.push(self.pending_out[start + i]);
            i = i + 1;
            assert(self.waiting().take(i as int) =~= self.waiting().take(i - 1).push(
                self.waiting()[i - 1],
            ));
        }
        self.pending_out_read = start + n;
        assert(self.waiting() =~= old(self).waiting().skip(n as int));
        n
    }

    /// Takes in as much of the input from `from` on as the chunk has room for,
    /// and returns how much.
    fn top_up_pending_in(&mut self, input: &[T], from: usize) -> (r: usize)
        requires
            old(self).wf(),
            from <= input@.len(),
        ensures
            final(self).wf(),
            r == least(old(self).chunk - old(self).pending_in@.len(), input@.len() - from),
            final(self).pending_in@ == old(self).pending_in@ + input@.subrange(
                from as int,
                from + r,
            ),
            final(self).waiting() == old(self).waiting(),
            final(self).channels == old(self).channels,
            final(self).chunk == old(self).chunk,
            final(self).ratio == old(self).ratio,
    {
        let room: usize = self.chunk - self.pending_in.len();
        let total: usize = input.len();
        let left: usize = total - from;
        let take: usize = if room <= left {
            room
        } else {
            left
        };
        let mut i: usize = 0;
        while i < take
            invariant
                i <= take,
                from + take <= total == input@.len(),
                self.wf(),
                old(self).pending_in@.len() + take <= self.chunk,
                self.pending_in@ == old(self).pending_in@ + input@.subrange(
                    from as int,
                    from + i,
                ),
                self.pending_out == old(self).pending_out,
                self.pending_out_read == old(self).pending_out_read,
                self.channels == old(self).channels,
                self.chunk == old(self).chunk,
                self.ratio == old(self).ratio,
            decreases take - i,
        {
            self.pending_in.push(input[from + i]);
            i = i + 1;
            assert(input@.subrange(from as int, from + i) =~= input@.subrange(
                from as int,
                from + i - 1,
            ).push(input@[from + i - 1]));
        }
        take
    }

    /// Delivers what waits and, where that leaves room, takes input in. Says
    /// whether a chunk is to be resampled now.
    pub fn step(&mut self, input: &[T], consumed: usize, output: &mut Vec<T>, room: usize) -> (r: (
        usize,
        SrcStep,
    ))
        requires
            old(self).wf(),
            consumed <= input@.len(),
            old(output)@.len() <= room,
        ensures
            final(self).wf(),
            final(self).channels == old(self).channels,
            final(self).chunk == old(self).chunk,
            final(self).ratio == old(self).ratio,
            ({
                let given = least(old(self).waiting().len() as int, room - old(output)@.len());
                &&& final(output)@ == old(output)@ + old(self).waiting().take(given)
                &&& final(self).waiting() == old(self).waiting().skip(given)
            }),
            ({
                let taken = if final(output)@.len() < room {
                    least(
                        old(self).chunk - old(self).pending_in@.len(),
                        input@.len() - consumed,
                    )
                } else {
                    0
                };
                &&& r.0 == consumed + taken
                &&& final(self).pending_in@ == old(self).pending_in@ + input@.subrange(
                    consumed as int,
                    consumed + taken,
                )
            }),
            r.1 == if final(output)@.len() < room && final(self).pending_in@.len()
                == final(self).chunk {
                SrcStep::Resample
            } else {
                SrcStep::Done
            },
    {
        let ghost start = *self;
        let total: usize = input.len();
        let given = self.drain_pending_out(output, room);
        if output.len() < room {
            let taken = self.top_up_pending_in(input, consumed);
            if self.pending_in.len() == self.chunk {
                (consumed + taken, SrcStep::Resample)
            } else {
                (consumed + taken, SrcStep::Done)
            }
        } else {
            assert(self.pending_in@ =~= start.pending_in@ + input@.subrange(
                consumed as int,
                consumed as int,
            ));
            (consumed, SrcStep::Done)
        }
    }

    /// Hands the full chunk out, to be resampled.
    pub fn take_chunk(&mut self) -> (r: Vec<T>)
        requires
            old(self).wf(),
            old(self).pending_in@.len() == old(self).chunk,
        ensures
            final(self).wf(),
            r@ == old(self).pending_in@,
            final(self).pending_in@ == Seq::<T>::empty(),
            final(self).waiting() == old(self).waiting(),
            final(self).channels == old(self).channels,
            final(self).chunk == old(self).chunk,
            final(self).ratio == old(self).ratio,
    {
        let mut chunk: Vec<T> = Vec::new();
        std::mem::swap(&mut chunk, &mut self.pending_in);
        assert(self.pending_in@ == Seq::<T>::empty());
        chunk
    }

    /// Takes a resampled chunk in, once the one before it was delivered.
    pub fn deliver(&mut self, resampled: Vec<T>)
        requires
            old(self).wf(),
            old(self).waiting().len() == 0,
        ensures
            final(self).wf(),
            final(self).waiting() == resampled@,
            final(self).pending_in@ == old(self).pending_in@,
            final(self).channels == old(self).channels,
            final(self).chunk == old(self).chunk,
            final(self).ratio == old(self).ratio,
    {
        self.pending_out = resampled;
        self.pending_out_read = 0;
        assert(self.waiting() =~= resampled@);
    }

    /// Runs `input` through one line of a resampler and appends to `output`,
    /// which may grow to `room`. What waited is delivered first; input is left
    /// over only where the output is full, and so is output.
    pub fn process<R: Resampler<T>>(
        &mut self,
        resampler: R,
        line: usize,
        input: &[T],
        output: &mut Vec<T>,
        room: usize,
    ) -> (r: (R, SrcProgress))
        requires
            old(self).wf(),
            old(output)@.len() <= room,
        ensures
            final(self).wf(),
            final(self).channels == old(self).channels,
            final(self).chunk == old(self).chunk,
            final(self).ratio == old(self).ratio,
            final(output)@.len() == old(output)@.len() + r.1.produced,
            final(output)@.len() <= room,
            ran(
                resampler,
                line,
                old(self).channels as nat,
                old(self).ratio.deep_view(),
                old(self).chunk as nat,
                input@,
                room as nat,
                fed(
                    old(self).feed(0, old(output)@),
                    old(self).chunk as nat,
                    input@,
                    room as nat,
                ),
                r.0,
                final(self).feed(r.1.consumed as nat, final(output)@),
            ),
    {
        let before: usize = output.len();
        let ghost ratio = self.ratio.deep_view();
        let ghost chunk = self.chunk as nat;
        let ghost channels = self.channels as nat;
        let mut resampler = resampler;
        let ghost first = resampler;
        let mut consumed: usize = 0;
        let mut outcome = self.step(input, consumed, output, room);
        consumed = outcome.0;
        let ghost start = fed(old(self).feed(0, old(output)@), chunk, input@, room as nat);
        assert(self.feed(consumed as nat, output@) =~= start);
        while outcome.1 == SrcStep::Resample
            invariant
                self.wf(),
                consumed <= input@.len(),
                consumed == outcome.0,
                before <= output@.len() <= room,
                self.channels == old(self).channels == channels,
                self.chunk == old(self).chunk == chunk,
                self.ratio == old(self).ratio,
                self.ratio.deep_view() == ratio,
                outcome.1 == (if output@.len() < room && self.pending_in@.len() == self.chunk {
                    SrcStep::Resample
                } else {
                    SrcStep::Done
                }),
                output@.len() < room ==> self.waiting().len() == 0,
                forall|after: R, end: Feed<T>| #[trigger]
                    ran(
                        resampler,
                        line,
                        channels,
                        ratio,
                        chunk,
                        input@,
                        room as nat,
                        self.feed(consumed as nat, output@),
                        after,
                        end,
                    ) ==> ran(
                        first,
                        line,
                        channels,
                        ratio,
                        chunk,
                        input@,
                        room as nat,
                        start,
                        after,
                        end,
                    ),
            decreases
                    input@.len() - consumed,
                    if outcome.1 == SrcStep::Resample {
                        1int
                    } else {
                        0
                    },
        {
            let ghost now = self.feed(consumed as nat, output@);
            let ghost earlier = resampler;
            let full = self.take_chunk();
            let lanes = part(&full, self.channels);
            let ghost asked = (lanes, self.ratio);
            let (next, answered) = resampler.resample(line, lanes, self.ratio);
            assert(call_ensures(R::resample, (earlier, line, asked.0, asked.1), (next, answered)));
            let resampled = weave(&answered);
            let ghost answer = resampled;
            assert(resamples(earlier, line, channels, now.pending, ratio, next, answer@));
            resampler = next;
            self.deliver(resampled);
            let ghost refilled = self.feed(consumed as nat, output@);
            outcome = self.step(input, consumed, output, room);
            consumed = outcome.0;
            let ghost then_fed = self.feed(consumed as nat, output@);
            proof {
                assert(refilled =~= (Feed {
                    pending: Seq::empty(),
                    waiting: answer@,
                    consumed: now.consumed,
                    output: now.output,
                }));
                assert(then_fed =~= fed(refilled, chunk, input@, room as nat));
                assert forall|after: R, end: Feed<T>| #[trigger]
                    ran(
                        resampler,
                        line,
                        channels,
                        ratio,
                        chunk,
                        input@,
                        room as nat,
                        then_fed,
                        after,
                        end,
                    ) implies ran(
                    first,
                    line,
                    channels,
                    ratio,
                    chunk,
                    input@,
                    room as nat,
                    start,
                    after,
                    end,
                ) by {
                    let next = (resampler, answer@);
                    assert(resamples(earlier, line, channels, now.pending, ratio, next.0, next.1));
                    assert(ran(
                        earlier,
                        line,
                        channels,
                        ratio,
                        chunk,
                        input@,
                        room as nat,
                        now,
                        after,
                        end,
                    ));
                }
            }
        }
        assert(ran(
            resampler,
            line,
            channels,
            ratio,
            chunk,
            input@,
            room as nat,
            self.feed(consumed as nat, output@),
            resampler,
            self.feed(consumed as nat, output@),
        ));
        let produced: usize = output.len() - before;
        (resampler, SrcProgress { consumed, produced })
    }
}

/// Parting whole frames by channel and weaving them again changes nothing.
pub proof fn weaving_undoes_parting<T>(samples: Seq<T>, channels: nat)
    requires
        1 <= channels,
        samples.len() % channels == 0,
    ensures
        woven(parted(samples, channels)) == samples,
{
    let parts = parted(samples, channels);
    let frames = samples.len() / channels;
    lemma_shortest(parts, frames, channels as int);
    vstd::arithmetic::div_mod::lemma_fundamental_div_mod(samples.len() as int, channels as int);
    assert(frames * channels == channels * frames) by (nonlinear_arith);
    assert forall|i: int| 0 <= i < samples.len() implies woven(parts)[i] == samples[i] by {
        let n = channels as int;
        vstd::arithmetic::div_mod::lemma_fundamental_div_mod(i, n);
        vstd::arithmetic::div_mod::lemma_mod_bound(i, n);
        vstd::arithmetic::div_mod::lemma_div_pos_is_pos(i, n);
        assert(i / n < frames) by (nonlinear_arith)
            requires
                i == n * (i / n) + i % n,
                0 <= i % n,
                i < n * frames,
                n >= 1,
        ;
        assert((i / n) * n == n * (i / n)) by (nonlinear_arith);
        assert(parts[i % n][i / n] == samples[(i / n) * channels + i % n]);
    }
    assert(woven(parts) =~= samples);
}

proof fn lemma_shortest<T>(channels: Seq<Seq<T>>, frames: nat, n: int)
    requires
        1 <= n <= channels.len(),
        forall|c: int| 0 <= c < channels.len() ==> (#[trigger] channels[c]).len() == frames,
    ensures
        shortest(channels, n) == frames,
    decreases n,
{
    if n > 1 {
        lemma_shortest(channels, frames, n - 1);
    }
}

/// Both ends are settled: nothing waits while there is room, and input is left
/// over only where the chunk is full or the output is.
pub open spec fn is_settled<T>(f: Feed<T>, chunk: nat, input: Seq<T>, room: nat) -> bool {
    &&& f.consumed <= input.len()
    &&& f.pending.len() <= chunk
    &&& f.output.len() <= room
    &&& f.output.len() < room ==> f.waiting.len() == 0
    &&& f.output.len() < room ==> f.pending.len() == chunk || f.consumed == input.len()
}

/// Nothing is lost on the way through a resampler, whatever it answers: what
/// was delivered stays in front, and input or output is left over only where
/// there is no more room.
pub proof fn leftovers_mean_no_room<T, R: Resampler<T>>(
    r: R,
    line: usize,
    channels: nat,
    ratio: Float64,
    chunk: nat,
    input: Seq<T>,
    room: nat,
    f: Feed<T>,
    after: R,
    end: Feed<T>,
)
    requires
        chunk >= 1,
        is_settled(f, chunk, input, room),
        ran(r, line, channels, ratio, chunk, input, room, f, after, end),
    ensures
        f.output.is_prefix_of(end.output),
        f.consumed <= end.consumed <= input.len(),
        end.pending.len() <= chunk,
        end.output.len() <= room,
        end.consumed < input.len() ==> end.output.len() == room,
        end.waiting.len() > 0 ==> end.output.len() == room,
    decreases
            input.len() - f.consumed,
            if is_due(f, chunk, room) {
                1int
            } else {
                0
            },
{
    if is_due(f, chunk, room) {
        let next = choose|next: (R, Seq<T>)|
            #![trigger resamples(r, line, channels, f.pending, ratio, next.0, next.1)]
            resamples(r, line, channels, f.pending, ratio, next.0, next.1) && ran(
                next.0,
                line,
                channels,
                ratio,
                chunk,
                input,
                room,
                fed(
                    Feed {
                        pending: Seq::empty(),
                        waiting: next.1,
                        consumed: f.consumed,
                        output: f.output,
                    },
                    chunk,
                    input,
                    room,
                ),
                after,
                end,
            );
        let g = fed(
            Feed {
                pending: Seq::empty(),
                waiting: next.1,
                consumed: f.consumed,
                output: f.output,
            },
            chunk,
            input,
            room,
        );
        leftovers_mean_no_room(next.0, line, channels, ratio, chunk, input, room, g, after, end);
        assert(f.output.is_prefix_of(g.output));
        assert(f.output.is_prefix_of(end.output));
    }
}

/// A chunk that does not fill is kept as it is, behind what was kept before,
/// and the resampler is not asked.
pub proof fn a_short_block_waits<T, R: Resampler<T>>(
    r: R,
    line: usize,
    channels: nat,
    ratio: Float64,
    chunk: nat,
    input: Seq<T>,
    room: nat,
    f: Feed<T>,
    after: R,
    end: Feed<T>,
)
    requires
        f.consumed == 0,
        f.output.len() + f.waiting.len() < room,
        f.pending.len() + input.len() < chunk,
        ran(r, line, channels, ratio, chunk, input, room, fed(f, chunk, input, room), after, end),
    ensures
        after == r,
        end.pending == f.pending + input,
        end.output == f.output + f.waiting,
        end.consumed == input.len(),
        end.waiting.len() == 0,
{
    assert(input.subrange(0, input.len() as int) =~= input);
    assert(f.waiting.take(f.waiting.len() as int) =~= f.waiting);
}

/// A block never becomes more frames than are made room for: no drift correction of
/// the two rates stretches it further, and the resampler has ten frames for its own
/// delay. The room grows with the block, and at one rate it is the block, a ninth
/// and those frames.
pub proof fn room_is_made_for_every_drift(frames: nat, more: nat, from_rate: nat, to_rate: nat)
    requires
        from_rate > 0,
        frames <= more,
    ensures
        (stretched(frames, from_rate, to_rate) - 10) * from_rate * 9 >= frames * to_rate * 10,
        (stretched(frames, from_rate, to_rate) - 11) * from_rate * 9 < frames * to_rate * 10
            || frames * to_rate == 0,
        stretched(frames, from_rate, to_rate) <= stretched(more, from_rate, to_rate),
        stretched(0, from_rate, to_rate) == 10,
{
    let per = 9 * from_rate as int;
    let n = frames * to_rate * 10 + per - 1;
    let m = more * to_rate * 10 + per - 1;
    assert(frames * to_rate * 10 <= more * to_rate * 10) by (nonlinear_arith)
        requires
            frames <= more,
    ;
    assert(0 <= frames * to_rate * 10) by (nonlinear_arith);
    vstd::arithmetic::div_mod::lemma_fundamental_div_mod(n, per);
    vstd::arithmetic::div_mod::lemma_div_is_ordered(n, m, per);
    let q = n / per;
    assert(q * from_rate * 9 == per * q) by (nonlinear_arith)
        requires
            per == 9 * from_rate,
    ;
    assert((q - 1) * from_rate * 9 == per * q - per) by (nonlinear_arith)
        requires
            per == 9 * from_rate,
    ;
    assert(0 * to_rate * 10 == 0) by (nonlinear_arith);
    vstd::arithmetic::div_mod::lemma_fundamental_div_mod_converse(per - 1, per, 0, per - 1);
}

} // verus!
