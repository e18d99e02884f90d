//! Virtual speakers for headphones: which fixed position each channel is heard
//! from, and how what is heard becomes two channels.
use crate::channel::{frames_between, speakers_of};
use crate::convolve::{PartitionedConvolver, Transform};
use crate::sample::{
    across, is_left, is_right, speaker_count, speakers_are_ascending, speakers_below, ChannelLayout, BC, BL, BR, FL,
    FLC, FR, FRC, LFE, SL, SR,
};
use crate::span::adds;
use vstd::prelude::*;

verus! {

/// The fixed positions around the listener.
#[derive(Debug, Clone, Copy, PartialEq, Eq, Structural)]
pub enum Position {
    FrontCenter,
    FrontLeft,
    FrontRight,
    SideLeft,
    SideRight,
    BackLeft,
    BackRight,
}

/// Every speaker is heard from its own side and from as far round as it stands:
/// one on the left from the left, one on the right from the same angle on the
/// right, and one of no side from the front. Only the back center, which stands
/// behind, has no place of its own there and is heard from behind on the left.
pub proof fn speakers_are_heard_from_their_own_side(speaker: u32)
    ensures
        is_left(speaker) ==> heard_from(speaker).azimuth() < 0,
        is_right(speaker) ==> heard_from(speaker).azimuth() > 0,
        is_left(speaker) || is_right(speaker) ==> heard_from(across(speaker)).azimuth()
            == -heard_from(speaker).azimuth(),
        speaker == 0x1 || speaker == 0x40 ==> heard_from(speaker).azimuth() == -30,
        speaker == 0x200 ==> heard_from(speaker).azimuth() == -90,
        speaker == 0x10 || speaker == 0x100 ==> heard_from(speaker).azimuth() == -135,
        !is_left(speaker) && !is_right(speaker) && speaker != 0x100 ==> heard_from(
            speaker,
        ).azimuth() == 0,
{
}

/// The position that a speaker is heard from. The speakers between two
/// positions go to the nearest; the back center is as far from both back
/// positions and goes to the left one. A speaker of unknown direction is heard
/// from the front.
pub open spec fn heard_from(speaker: u32) -> Position {
    if speaker == FL || speaker == FLC {
        Position::FrontLeft
    } else if speaker == FR || speaker == FRC {
        Position::FrontRight
    } else if speaker == SL {
        Position::SideLeft
    } else if speaker == SR {
        Position::SideRight
    } else if speaker == BL || speaker == BC {
        Position::BackLeft
    } else if speaker == BR {
        Position::BackRight
    } else {
        Position::FrontCenter
    }
}

pub fn position_for(speaker: u32) -> (r: Position)
    ensures
        r == heard_from(speaker),
{
    if speaker == FL || speaker == FLC {
        Position::FrontLeft
    } else if speaker == FR || speaker == FRC {
        Position::FrontRight
    } else if speaker == SL {
        Position::SideLeft
    } else if speaker == SR {
        Position::SideRight
    } else if speaker == BL || speaker == BC {
        Position::BackLeft
    } else if speaker == BR {
        Position::BackRight
    } else {
        Position::FrontCenter
    }
}

impl Position {
    /// Degrees from straight ahead, positive to the right.
    pub open spec fn azimuth(self) -> int {
        match self {
            Position::FrontCenter => 0,
            Position::FrontLeft => -30,
            Position::FrontRight => 30,
            Position::SideLeft => -90,
            Position::SideRight => 90,
            Position::BackLeft => -135,
            Position::BackRight => 135,
        }
    }

    pub fn azimuth_deg(self) -> (r: i32)
        ensures
            r == self.azimuth(),
    {
        match self {
            Position::FrontCenter => 0,
            Position::FrontLeft => -30,
            Position::FrontRight => 30,
            Position::SideLeft => -90,
            Position::SideRight => 90,
            Position::BackLeft => -135,
            Position::BackRight => 135,
        }
    }
}

/// An azimuth as the ears tell it: what lies behind sounds as its image in
/// front.
pub open spec fn folded(azimuth: int) -> int {
    if azimuth > 90 {
        180 - azimuth
    } else if azimuth < -90 {
        -180 - azimuth
    } else {
        azimuth
    }
}

/// Folds an azimuth to the half circle in front of the listener.
pub fn fold_azimuth(azimuth: i32) -> (r: i32)
    ensures
        r == folded(azimuth as int),
{
    if azimuth > 90 {
        180 - azimuth
    } else if azimuth < -90 {
        -180 - azimuth
    } else {
        azimuth
    }
}

/// What the ears tell is largest at the side, none in front and behind, the
/// same for a direction and its image behind, and the other way round on the
/// other side.
pub proof fn ears_tell_sides_apart(azimuth: int)
    requires
        0 <= azimuth <= 180,
    ensures
        0 <= folded(azimuth) <= 90,
        folded(azimuth) == 90 <==> azimuth == 90,
        folded(azimuth) == 0 <==> azimuth == 0 || azimuth == 180,
        folded(180 - azimuth) == folded(azimuth),
        folded(-azimuth) == -folded(azimuth),
{
}

impl Position {
    /// Where the position stands in a table of all of them.
    pub open spec fn rank(self) -> int {
        match self {
            Position::FrontCenter => 0,
            Position::FrontLeft => 1,
            Position::FrontRight => 2,
            Position::SideLeft => 3,
            Position::SideRight => 4,
            Position::BackLeft => 5,
            Position::BackRight => 6,
        }
    }

    fn at(self) -> (r: usize)
        ensures
            r == self.rank(),
    {
        match self {
            Position::FrontCenter => 0,
            Position::FrontLeft => 1,
            Position::FrontRight => 2,
            Position::SideLeft => 3,
            Position::SideRight => 4,
            Position::BackLeft => 5,
            Position::BackRight => 6,
        }
    }
}

/// What the near ear hears of an impulse: it, at once.
pub open spec fn near_ear<T>(taps: nat, silence: T, unit: T) -> Seq<T> {
    Seq::new(
        taps,
        |i: int|
            if i == 0 {
                unit
            } else {
                silence
            },
    )
}

/// What the far ear hears of it: what is left of it, later. As much is kept as
/// there are taps, and one tap at least.
pub open spec fn far_ear<T>(taps: nat, silence: T, shadow: Seq<T>, delay: nat) -> Seq<T> {
    let start = if delay < taps {
        delay as int
    } else {
        taps - 1
    };
    Seq::new(
        taps,
        |i: int|
            if start <= i < start + shadow.len() {
                shadow[i - start]
            } else {
                silence
            },
    )
}

/// Over how many samples the far ear's impulse is spread. The head shadows what
/// comes from the side, and nothing of what comes from straight ahead or behind.
pub open spec fn shadow_length(azimuth: int) -> nat {
    if folded(azimuth) == 0 {
        1
    } else {
        4
    }
}

pub fn shadow_taps(azimuth: i32) -> (r: usize)
    ensures
        r == shadow_length(azimuth as int),
{
    if fold_azimuth(azimuth) == 0 {
        1
    } else {
        4
    }
}

/// Both ears hear the same of a source straight ahead: where nothing delays or
/// weakens an impulse, it is at both at once.
pub proof fn straight_ahead_sounds_the_same<T>(taps: nat, silence: T, unit: T)
    requires
        taps >= 1,
    ensures
        shadow_length(0) == 1,
        far_ear(taps, silence, seq![unit], 0) == near_ear(taps, silence, unit),
{
    assert(far_ear(taps, silence, seq![unit], 0) =~= near_ear(taps, silence, unit));
}

/// What the left and the right ear hear of a source on one side.
pub open spec fn pair_heard<T>(
    taps: nat,
    silence: T,
    unit: T,
    shadow: Seq<T>,
    delay: nat,
    from_right: bool,
) -> (Seq<T>, Seq<T>) {
    let near = near_ear(taps, silence, unit);
    let far = far_ear(taps, silence, shadow, delay);
    if from_right {
        (far, near)
    } else {
        (near, far)
    }
}

/// A source reaches the ear on its own side at once, as it is and only once. The
/// other ear hears what is left of it from the delay on, and nothing before; what
/// comes from the other side reaches the ears the other way round.
pub proof fn a_source_reaches_its_own_side_first<T>(
    taps: nat,
    silence: T,
    unit: T,
    shadow: Seq<T>,
    delay: nat,
    i: int,
)
    requires
        delay < taps,
        0 <= i < taps,
    ensures
        ({
            let (left, right) = pair_heard(taps, silence, unit, shadow, delay, true);
            &&& left.len() == taps && right.len() == taps
            &&& right[0] == unit
            &&& i > 0 ==> right[i] == silence
            &&& i < delay ==> left[i] == silence
            &&& delay <= i < delay + shadow.len() ==> left[i] == shadow[i - delay]
            &&& delay + shadow.len() <= i ==> left[i] == silence
            &&& pair_heard(taps, silence, unit, shadow, delay, false) == (right, left)
        }),
{
}

/// The impulses at the left and the right ear of a source on one side.
pub fn ear_pair<T: Copy>(
    taps: usize,
    silence: T,
    unit: T,
    shadow: &[T],
    delay: usize,
    from_right: bool,
) -> (r: (Vec<T>, Vec<T>))
    requires
        taps >= 1,
    ensures
        (r.0@, r.1@) == pair_heard(
            taps as nat,
            silence,
            unit,
            shadow@,
            delay as nat,
            from_right,
        ),
{
    let start: usize = if delay < taps {
        delay
    } else {
        taps - 1
    };
    let mut near: Vec<T> = Vec::new();
    let mut far: Vec<T> = Vec::new();
    let mut i: usize = 0;
    while i < taps
        invariant
            i <= taps,
            start == if delay < taps {
                delay as int
            } else {
                taps - 1
            },
            near@ == near_ear(taps as nat, silence, unit).take(i as int),
            far@ == far_ear(taps as nat, silence, shadow@, delay as nat).take(i as int),
        decreases taps - i,
    {
        near.push(
            if i == 0 {
                unit
            } else {
                silence
            },
        );
        far.push(
            if start <= i && i - start < shadow.len() {
                shadow[i - start]
            } else {
                silence
            },
        );
        i = i + 1;
        assert(near@ =~= near_ear(taps as nat, silence, unit).take(i as int));
        assert(far@ =~= far_ear(taps as nat, silence, shadow@, delay as nat).take(i as int));
    }
    assert(near@ =~= near_ear(taps as nat, silence, unit));
    assert(far@ =~= far_ear(taps as nat, silence, shadow@, delay as nat));
    if from_right {
        (far, near)
    } else {
        (near, far)
    }
}

/// The impulses of every position at the left and the right ear, at one sample
/// rate.
#[derive(Debug)]
pub struct HrirSet<T> {
    sample_rate: u32,
    taps: usize,
    pairs: Vec<(Vec<T>, Vec<T>)>,
}

impl<T> HrirSet<T> {
    /// There is a pair for every position.
    pub closed spec fn wf(self) -> bool {
        self.pairs@.len() == 7
    }

    pub closed spec fn rate(self) -> u32 {
        self.sample_rate
    }

    /// How long an impulse is.
    pub closed spec fn length(self) -> usize {
        self.taps
    }

    /// The impulses of a position.
    pub closed spec fn heard(self, position: Position) -> (Vec<T>, Vec<T>) {
        self.pairs@[position.rank()]
    }

    /// The set for a sample rate. `synth` makes the pair of an azimuth at a
    /// sample rate, with so many taps.
    pub fn embedded<F: Fn(i32, u32, usize) -> (Vec<T>, Vec<T>)>(
        sample_rate: u32,
        taps: usize,
        synth: &F,
    ) -> (r: HrirSet<T>)
        requires
            forall|azimuth: i32, rate: u32, taps: usize|
                call_requires(*synth, (azimuth, rate, taps)),
        ensures
            r.wf(),
            r.rate() == sample_rate,
            r.length() == taps,
            forall|p: Position|
                call_ensures(
                    *synth,
                    (p.azimuth() as i32, sample_rate, taps),
                    #[trigger] r.heard(p),
                ),
    {
        let mut pairs: Vec<(Vec<T>, Vec<T>)> = Vec::new();
        pairs.push(synth(Position::FrontCenter.azimuth_deg(), sample_rate, taps));
        pairs.push(synth(Position::FrontLeft.azimuth_deg(), sample_rate, taps));
        pairs.push(synth(Position::FrontRight.azimuth_deg(), sample_rate, taps));
        pairs.push(synth(Position::SideLeft.azimuth_deg(), sample_rate, taps));
        pairs.push(synth(Position::SideRight.azimuth_deg(), sample_rate, taps));
        pairs.push(synth(Position::BackLeft.azimuth_deg(), sample_rate, taps));
        pairs.push(synth(Position::BackRight.azimuth_deg(), sample_rate, taps));
        HrirSet { sample_rate, taps, pairs }
    }

    pub fn sample_rate(&self) -> (r: u32)
        ensures
            r == self.rate(),
    {
        self.sample_rate
    }

    pub fn taps(&self) -> (r: usize)
        ensures
            r == self.length(),
    {
        self.taps
    }

    /// The impulses of a position.
    pub fn pair_at(&self, position: Position) -> (r: &(Vec<T>, Vec<T>))
        requires
            self.wf(),
        ensures
            *r == self.heard(position),
    {
        &self.pairs[position.at()]
    }

    /// The impulses of a speaker, by the position that it is heard from.
    pub fn pair_for(&self, speaker: u32) -> (r: &(Vec<T>, Vec<T>))
        requires
            self.wf(),
        ensures
            *r == self.heard(heard_from(speaker)),
    {
        self.pair_at(position_for(speaker))
    }
}

/// The position on the other side.
pub open spec fn mirrored(p: Position) -> Position {
    match p {
        Position::FrontCenter => Position::FrontCenter,
        Position::FrontLeft => Position::FrontRight,
        Position::FrontRight => Position::FrontLeft,
        Position::SideLeft => Position::SideRight,
        Position::SideRight => Position::SideLeft,
        Position::BackLeft => Position::BackRight,
        Position::BackRight => Position::BackLeft,
    }
}

/// The positions are symmetric about the listener.
pub proof fn positions_are_symmetric(p: Position)
    ensures
        mirrored(p).azimuth() == -p.azimuth(),
        mirrored(mirrored(p)) == p,
{
}

/// One channel of the input and where it is heard from.
#[derive(Debug, Clone, Copy, PartialEq, Eq, Structural)]
pub struct PositionedChannel {
    /// Position in an interleaved frame.
    pub index: usize,
    pub position: Position,
}

/// The first `n` speakers with a direction, each with its channel.
pub open spec fn placed(speakers: Seq<u32>, n: int) -> Seq<PositionedChannel>
    decreases n,
{
    if n <= 0 {
        Seq::empty()
    } else if speakers[n - 1] == LFE {
        placed(speakers, n - 1)
    } else {
        placed(speakers, n - 1).push(
            PositionedChannel {
                index: (n - 1) as usize,
                position: heard_from(speakers[n - 1]),
            },
        )
    }
}

/// The channel of the last low-frequency speaker among the first `n`.
pub open spec fn lfe_among(speakers: Seq<u32>, n: int) -> Option<usize>
    decreases n,
{
    if n <= 0 {
        None
    } else if speakers[n - 1] == LFE {
        Some((n - 1) as usize)
    } else {
        lfe_among(speakers, n - 1)
    }
}

/// The smallest power of two that is not below `n`, from `p` on.
pub open spec fn power_from(n: nat, p: nat) -> nat
    decreases
            if p < n {
                n - p
            } else {
                0
            },
{
    if p >= n || p == 0 {
        p
    } else {
        power_from(n, 2 * p)
    }
}

/// How a layout is rendered to two ears.
#[derive(Debug)]
pub struct Spatializer {
    pub channels: Vec<PositionedChannel>,
    /// The channel that is mixed into both ears without a direction.
    pub lfe_index: Option<usize>,
    pub in_ch: usize,
    /// Frames that the convolution works on at once, a power of two.
    pub partition: usize,
}

/// The smallest power of two that is not below `n`.
fn next_power(n: usize) -> (r: usize)
    requires
        n <= usize::MAX / 2,
    ensures
        r == power_from(n as nat, 1),
        1 <= r,
        n <= r,
{
    let mut p: usize = 1;
    while p < n
        invariant
            1 <= p,
            n <= usize::MAX / 2,
            power_from(n as nat, 1) == power_from(n as nat, p as nat),
        decreases
                if p < n {
                    n - p
                } else {
                    0
                },
    {
        p = 2 * p;
    }
    p
}

impl Spatializer {
    /// Every channel is one of the input's.
    pub open spec fn wf(&self) -> bool {
        &&& 0 < self.in_ch
        &&& forall|c: int|
            0 <= c < self.channels@.len() ==> (#[trigger] self.channels@[c]).index < self.in_ch
        &&& self.lfe_index matches Some(k) ==> k < self.in_ch
    }

    /// The plan renders this layout, in blocks of up to so many frames.
    pub open spec fn renders(&self, from: ChannelLayout, max_block_frames: nat) -> bool {
        &&& self.channels@ == placed(speakers_of(from), speakers_of(from).len() as int)
        &&& self.lfe_index == lfe_among(speakers_of(from), speakers_of(from).len() as int)
        &&& self.in_ch == if speaker_count(from.0) == 0 {
            1
        } else {
            speaker_count(from.0)
        }
        &&& self.partition == power_from(
            if max_block_frames == 0 {
                1
            } else {
                max_block_frames
            },
            1,
        )
    }

    /// Every layout can be rendered: each channel but the low-frequency one
    /// gets a position.
    pub fn new(from: ChannelLayout, max_block_frames: usize) -> (r: Spatializer)
        requires
            max_block_frames <= usize::MAX / 2,
        ensures
            r.wf(),
            r.renders(from, max_block_frames as nat),
    {
        let frames: usize = if max_block_frames == 0 {
            1
        } else {
            max_block_frames
        };
        let partition = next_power(frames);
        let speakers = from.speakers();
        let in_ch: usize = if speakers.len() == 0 {
            1
        } else {
            speakers.len()
        };
        let mut channels: Vec<PositionedChannel> = Vec::new();
        let mut lfe_index: Option<usize> = None;
        let mut i: usize = 0;
        while i < speakers.len()
            invariant
                i <= speakers.len(),
                channels@ == placed(speakers@, i as int),
                lfe_index == lfe_among(speakers@, i as int),
                forall|c: int|
                    0 <= c < channels@.len() ==> (#[trigger] channels@[c]).index < speakers@.len(),
                lfe_index matches Some(k) ==> k < speakers@.len(),
            decreases speakers.len() - i,
        {
            if speakers[i] == LFE {
                lfe_index = Some(i);
            } else {
                channels.push(
                    PositionedChannel { index: i, position: position_for(speakers[i]) },
                );
            }
            i = i + 1;
        }
        Spatializer { channels, lfe_index, in_ch, partition }
    }
}

/// All of some pairs of convolutions can go on.
pub open spec fn are_ready<T: Copy, S: Copy, F: Transform<T, S>>(
    ears: Seq<(PartitionedConvolver<T, S, F>, PartitionedConvolver<T, S, F>)>,
) -> bool {
    forall|c: int|
        0 <= c < ears.len() ==> (#[trigger] ears[c]).0.ready() && ears[c].1.ready()
}

impl Spatializer {
    /// Makes the convolutions of all channels, a pair for each: `convolver` makes
    /// one of an impulse, in blocks of so many frames.
    pub fn equip<T, C, F: Fn(&Vec<T>, usize) -> C>(&self, hrirs: &HrirSet<T>, convolver: &F) -> (r:
        Vec<(C, C)>)
        requires
            hrirs.wf(),
            forall|impulse: &Vec<T>, partition: usize|
                call_requires(*convolver, (impulse, partition)),
        ensures
            r@.len() == self.channels@.len(),
            forall|c: int|
                #![trigger r@[c]]
                0 <= c < r@.len() ==> {
                    let pair = hrirs.heard(self.channels@[c].position);
                    &&& call_ensures(*convolver, (&pair.0, self.partition), r@[c].0)
                    &&& call_ensures(*convolver, (&pair.1, self.partition), r@[c].1)
                },
    {
        let mut ears: Vec<(C, C)> = Vec::new();
        let mut c: usize = 0;
        while c < self.channels.len()
            invariant
                c <= self.channels@.len(),
                hrirs.wf(),
                forall|impulse: &Vec<T>, partition: usize|
                    call_requires(*convolver, (impulse, partition)),
                ears@.len() == c,
                forall|d: int|
                    #![trigger ears@[d]]
                    0 <= d < c ==> {
                        let pair = hrirs.heard(self.channels@[d].position);
                        &&& call_ensures(*convolver, (&pair.0, self.partition), ears@[d].0)
                        &&& call_ensures(*convolver, (&pair.1, self.partition), ears@[d].1)
                    },
            decreases self.channels@.len() - c,
        {
            let pair = hrirs.pair_at(self.channels[c].position);
            let left = convolver(&pair.0, self.partition);
            let right = convolver(&pair.1, self.partition);
            ears.push((left, right));
            c = c + 1;
        }
        ears
    }
}

/// What the channels bring to one ear at a frame, in their order.
pub open spec fn heard_at<T>(ears: Seq<(Vec<T>, Vec<T>)>, right: bool, f: int) -> Seq<T> {
    Seq::new(
        ears.len(),
        |c: int|
            if right {
                ears[c].1@[f]
            } else {
                ears[c].0@[f]
            },
    )
}

impl Spatializer {
    /// A stereo frame: what the channels bring to each ear, added up from
    /// silence, and behind them the low-frequency sample at its own level.
    pub open spec fn frame_mixed<T, F: Fn(T, T) -> T, G: Fn(T) -> T>(
        &self,
        plus: F,
        low: G,
        silence: T,
        input: Seq<T>,
        ears: Seq<(Vec<T>, Vec<T>)>,
        output: Seq<T>,
        f: int,
    ) -> bool {
        let lefts = heard_at(ears, false, f);
        let rights = heard_at(ears, true, f);
        match self.lfe_index {
            None => {
                &&& adds(plus, silence, lefts, output[2 * f])
                &&& adds(plus, silence, rights, output[2 * f + 1])
            },
            Some(k) => exists|level: T|
                {
                    &&& #[trigger] call_ensures(low, (input[f * self.in_ch + k],), level)
                    &&& adds(plus, silence, lefts.push(level), output[2 * f])
                    &&& adds(plus, silence, rights.push(level), output[2 * f + 1])
                },
        }
    }

    /// One channel of the first `frames` frames.
    fn line<T: Copy>(&self, channel: usize, frames: usize, input: &[T]) -> (r: Vec<T>)
        requires
            channel < self.in_ch,
            frames * self.in_ch <= input@.len(),
        ensures
            r@ == Seq::new(frames as nat, |f: int| input@[f * self.in_ch + channel]),
    {
        let total: usize = input.len();
        let mut samples: Vec<T> = Vec::new();
        let mut f: usize = 0;
        while f < frames
            invariant
                f <= frames,
                channel < self.in_ch,
                frames * self.in_ch <= total == input@.len(),
                samples@ == Seq::new(f as nat, |g: int| input@[g * self.in_ch + channel]),
            decreases frames - f,
        {
            assert(f * self.in_ch + self.in_ch <= frames * self.in_ch) by (nonlinear_arith)
                requires
                    f < frames,
            ;
            samples.push(input[f * self.in_ch + channel]);
            f = f + 1;
            assert(samples@ =~= Seq::new(f as nat, |g: int| input@[g * self.in_ch + channel]));
        }
        samples
    }

    /// Mixes what the channels bring to the two ears, and the low-frequency
    /// channel into both, as stereo frames. Returns how many samples were
    /// written: as many frames as both buffers hold whole. Written samples are
    /// replaced, and the rest of `output` stays as it was.
    fn mix<T: Copy, F: Fn(T, T) -> T, G: Fn(T) -> T>(
        &self,
        silence: T,
        plus: &F,
        low: &G,
        input: &[T],
        ears: &Vec<(Vec<T>, Vec<T>)>,
        output: &mut Vec<T>,
    ) -> (r: usize)
        requires
            0 < self.in_ch,
            self.lfe_index matches Some(k) ==> k < self.in_ch,
            forall|a: T, b: T| call_requires(*plus, (a, b)),
            forall|a: T| call_requires(*low, (a,)),
            forall|c: int|
                0 <= c < ears@.len() ==> {
                    let frames = frames_between(
                        input@.len(),
                        self.in_ch as nat,
                        old(output)@.len(),
                        2,
                    );
                    frames <= (#[trigger] ears@[c]).0@.len() && frames <= ears@[c].1@.len()
                },
        ensures
            r == 2 * frames_between(input@.len(), self.in_ch as nat, old(output)@.len(), 2),
            final(output)@.len() == old(output)@.len(),
            forall|i: int| r <= i < old(output)@.len() ==> final(output)@[i] == old(output)@[i],
            forall|f: int|
                0 <= f < r / 2 ==> #[trigger] self.frame_mixed(
                    *plus,
                    *low,
                    silence,
                    input@,
                    ears@,
                    final(output)@,
                    f,
                ),
    {
        let in_len: usize = input.len();
        let out_len: usize = output.len();
        let in_frames: usize = in_len / self.in_ch;
        let out_frames: usize = out_len / 2;
        let frames: usize = if in_frames <= out_frames {
            in_frames
        } else {
            out_frames
        };
        proof {
            vstd::arithmetic::div_mod::lemma_fundamental_div_mod(in_len as int, self.in_ch as int);
            assert(frames * self.in_ch <= self.in_ch * in_frames) by (nonlinear_arith)
                requires
                    frames <= in_frames,
            ;
        }
        let mut f: usize = 0;
        while f < frames
            invariant
                f <= frames,
                0 < self.in_ch,
                self.lfe_index matches Some(k) ==> k < self.in_ch,
                frames * self.in_ch <= in_len == input@.len(),
                2 * frames <= out_len == output@.len() == old(output)@.len(),
                forall|a: T, b: T| call_requires(*plus, (a, b)),
                forall|a: T| call_requires(*low, (a,)),
                forall|c: int|
                    0 <= c < ears@.len() ==> frames <= (#[trigger] ears@[c]).0@.len() && frames
                        <= ears@[c].1@.len(),
                forall|i: int| 2 * f <= i < output@.len() ==> output@[i] == old(output)@[i],
                forall|g: int|
                    0 <= g < f ==> #[trigger] self.frame_mixed(
                        *plus,
                        *low,
                        silence,
                        input@,
                        ears@,
                        output@,
                        g,
                    ),
            decreases frames - f,
        {
            assert(f * self.in_ch + self.in_ch <= frames * self.in_ch) by (nonlinear_arith)
                requires
                    f < frames,
            ;
            let mut left = silence;
            let mut right = silence;
            let mut c: usize = 0;
            assert(heard_at(ears@, false, f as int).take(0) =~= Seq::empty());
            assert(heard_at(ears@, true, f as int).take(0) =~= Seq::empty());
            while c < ears.len()
                invariant
                    c <= ears@.len(),
                    f < frames,
                    forall|a: T, b: T| call_requires(*plus, (a, b)),
                    forall|c: int|
                        0 <= c < ears@.len() ==> frames <= (#[trigger] ears@[c]).0@.len() && frames
                            <= ears@[c].1@.len(),
                    adds(*plus, silence, heard_at(ears@, false, f as int).take(c as int), left),
                    adds(*plus, silence, heard_at(ears@, true, f as int).take(c as int), right),
                decreases ears@.len() - c,
            {
                let ghost lefts = heard_at(ears@, false, f as int);
                let ghost rights = heard_at(ears@, true, f as int);
                let next_left = plus(left, ears[c].0[f]);
                let next_right = plus(right, ears[c].1[f]);
                c = c + 1;
                proof {
                    assert(lefts.take(c as int).drop_last() =~= lefts.take(c - 1));
                    assert(rights.take(c as int).drop_last() =~= rights.take(c - 1));
                    assert(call_ensures(*plus, (left, lefts.take(c as int).last()), next_left));
                    assert(call_ensures(*plus, (right, rights.take(c as int).last()), next_right));
                }
                left = next_left;
                right = next_right;
            }
            assert(heard_at(ears@, false, f as int).take(c as int) =~= heard_at(
                ears@,
                false,
                f as int,
            ));
            assert(heard_at(ears@, true, f as int).take(c as int) =~= heard_at(
                ears@,
                true,
                f as int,
            ));
            let ghost lefts = heard_at(ears@, false, f as int);
            let ghost rights = heard_at(ears@, true, f as int);
            assert(adds(*plus, silence, lefts, left) && adds(*plus, silence, rights, right));
            match self.lfe_index {
                None => {},
                Some(k) => {
                    let x = input[f * self.in_ch + k];
                    let level = low(x);
                    let with_left = plus(left, level);
                    let with_right = plus(right, level);
                    proof {
                        assert(lefts.push(level).drop_last() =~= lefts);
                        assert(rights.push(level).drop_last() =~= rights);
                        assert(call_ensures(*low, (x,), level));
                        assert(call_ensures(*plus, (left, lefts.push(level).last()), with_left));
                        assert(adds(*plus, silence, lefts.push(level), with_left));
                        assert(call_ensures(*plus, (right, rights.push(level).last()), with_right));
                        assert(adds(*plus, silence, rights.push(level), with_right));
                    }
                    left = with_left;
                    right = with_right;
                },
            }
            let ghost before = output@;
            let ghost at = f as int;
            output[2 * f] = left;
            output[2 * f + 1] = right;
            assert(self.frame_mixed(*plus, *low, silence, input@, ears@, output@, at));
            f = f + 1;
            assert forall|g: int| 0 <= g < f implies #[trigger] self.frame_mixed(
                *plus,
                *low,
                silence,
                input@,
                ears@,
                output@,
                g,
            ) by {
                if g < at {
                    assert(self.frame_mixed(*plus, *low, silence, input@, ears@, before, g));
                } else {
                    assert(g == at);
                }
            }
        }
        2 * frames
    }

    /// What channel `c` plays in the first `frames` frames.
    pub open spec fn played<T>(&self, c: int, frames: int, input: Seq<T>) -> Seq<T> {
        Seq::new(frames as nat, |f: int| input[f * self.in_ch + self.channels@[c].index])
    }

    /// The first `n` channels went through their convolutions, one per ear, and
    /// came out as `heard`.
    pub open spec fn heard_through<T: Copy, S: Copy, F: Transform<T, S>>(
        &self,
        before: Seq<(PartitionedConvolver<T, S, F>, PartitionedConvolver<T, S, F>)>,
        frames: int,
        input: Seq<T>,
        after: Seq<(PartitionedConvolver<T, S, F>, PartitionedConvolver<T, S, F>)>,
        heard: Seq<(Vec<T>, Vec<T>)>,
        n: int,
    ) -> bool {
        forall|c: int|
            #![trigger heard[c]]
            0 <= c < n ==> {
                &&& before[c].0.ran(self.played(c, frames, input), after[c].0, heard[c].0@)
                &&& before[c].1.ran(self.played(c, frames, input), after[c].1, heard[c].1@)
            }
    }

    /// What rendering makes of a buffer: so many samples are replaced by whole
    /// stereo frames, mixed of what came out of the convolutions, and the rest
    /// stays as it was.
    pub open spec fn rendered<T: Copy, S: Copy, F: Transform<T, S>, P: Fn(T, T) -> T, G: Fn(T) -> T>(
        &self,
        plus: P,
        low: G,
        silence: T,
        before: Seq<(PartitionedConvolver<T, S, F>, PartitionedConvolver<T, S, F>)>,
        input: Seq<T>,
        start: Seq<T>,
        written: nat,
        after: Seq<(PartitionedConvolver<T, S, F>, PartitionedConvolver<T, S, F>)>,
        output: Seq<T>,
    ) -> bool {
        &&& written == 2 * frames_between(input.len(), self.in_ch as nat, start.len(), 2)
        &&& after.len() == before.len()
        &&& output.len() == start.len()
        &&& forall|i: int| written <= i < start.len() ==> output[i] == start[i]
        &&& exists|heard: Seq<(Vec<T>, Vec<T>)>|
            {
                &&& heard.len() == self.channels@.len()
                &&& #[trigger] self.heard_through(
                    before,
                    (written / 2) as int,
                    input,
                    after,
                    heard,
                    heard.len() as int,
                )
                &&& self.frames_mixed(plus, low, silence, input, heard, output, (written / 2) as int)
            }
    }

    /// The first `n` stereo frames are mixed.
    pub open spec fn frames_mixed<T, P: Fn(T, T) -> T, G: Fn(T) -> T>(
        &self,
        plus: P,
        low: G,
        silence: T,
        input: Seq<T>,
        heard: Seq<(Vec<T>, Vec<T>)>,
        output: Seq<T>,
        n: int,
    ) -> bool {
        forall|f: int|
            0 <= f < n ==> #[trigger] self.frame_mixed(
                plus,
                low,
                silence,
                input,
                heard,
                output,
                f,
            )
    }

    /// Renders whole frames to stereo. Every channel with a direction goes
    /// through its pair of convolutions, what they bring to each ear is added
    /// up, and the low-frequency channel goes to both ears as it is. Returns how
    /// many samples were written: as many frames as both buffers hold whole.
    pub fn process<T: Copy, S: Copy, F: Transform<T, S>, P: Fn(T, T) -> T, G: Fn(T) -> T>(
        &self,
        ears: &mut Vec<(PartitionedConvolver<T, S, F>, PartitionedConvolver<T, S, F>)>,
        silence: T,
        plus: &P,
        low: &G,
        input: &[T],
        output: &mut Vec<T>,
    ) -> (r: usize)
        requires
            self.wf(),
            old(ears)@.len() == self.channels@.len(),
            are_ready(old(ears)@),
            forall|a: T, b: T| call_requires(*plus, (a, b)),
            forall|a: T| call_requires(*low, (a,)),
        ensures
            self.rendered(
                *plus,
                *low,
                silence,
                old(ears)@,
                input@,
                old(output)@,
                r as nat,
                final(ears)@,
                final(output)@,
            ),
            are_ready(final(ears)@),
    {
        let in_frames: usize = input.len() / self.in_ch;
        let out_frames: usize = output.len() / 2;
        let frames: usize = if in_frames <= out_frames {
            in_frames
        } else {
            out_frames
        };
        proof {
            vstd::arithmetic::div_mod::lemma_fundamental_div_mod(
                input@.len() as int,
                self.in_ch as int,
            );
            assert(frames * self.in_ch <= self.in_ch * in_frames) by (nonlinear_arith)
                requires
                    frames <= in_frames,
            ;
        }
        let mut heard: Vec<(Vec<T>, Vec<T>)> = Vec::new();
        let mut c: usize = 0;
        while c < self.channels.len()
            invariant
                c <= self.channels@.len(),
                self.wf(),
                frames * self.in_ch <= input@.len(),
                ears@.len() == old(ears)@.len() == self.channels@.len(),
                heard@.len() == c,
                forall|d: int|
                    0 <= d < ears@.len() ==> (#[trigger] ears@[d]).0.ready() && ears@[d].1.ready(),
                forall|d: int| c <= d < ears@.len() ==> #[trigger] ears@[d] == old(ears)@[d],
                forall|d: int|
                    0 <= d < c ==> (#[trigger] heard@[d]).0@.len() == frames && heard@[d].1@.len()
                        == frames,
                self.heard_through(
                    old(ears)@,
                    frames as int,
                    input@,
                    ears@,
                    heard@,
                    c as int,
                ),
            decreases self.channels@.len() - c,
        {
            let ghost earlier = ears@;
            let ghost so_far = heard@;
            let line = self.line(self.channels[c].index, frames, input);
            assert(line@ =~= self.played(c as int, frames as int, input@));
            let left = ears[c].0.process(line.as_slice());
            let right = ears[c].1.process(line.as_slice());
            heard.push((left, right));
            c = c + 1;
            assert forall|d: int|
                #![trigger heard@[d]]
                0 <= d < c implies old(ears)@[d].0.ran(
                self.played(d, frames as int, input@),
                ears@[d].0,
                heard@[d].0@,
            ) && old(ears)@[d].1.ran(
                self.played(d, frames as int, input@),
                ears@[d].1,
                heard@[d].1@,
            ) by {
                if d < c - 1 {
                    assert(heard@[d] == so_far[d]);
                    assert(ears@[d] == earlier[d]);
                }
            }
        }
        let written = self.mix(silence, plus, low, input, &heard, output);
        assert(self.heard_through(
            old(ears)@,
            (written / 2) as int,
            input@,
            ears@,
            heard@,
            heard@.len() as int,
        ));
        written
    }
}

/// Adding silence changes nothing.
pub open spec fn silence_adds_nothing<T, P: Fn(T, T) -> T>(plus: P, silence: T) -> bool {
    &&& forall|x: T, r: T| #[trigger] call_ensures(plus, (x, silence), r) ==> r == x
    &&& forall|x: T, r: T| #[trigger] call_ensures(plus, (silence, x), r) ==> r == x
}

proof fn lemma_sum_of_one<T, P: Fn(T, T) -> T>(
    plus: P,
    silence: T,
    terms: Seq<T>,
    at: int,
    x: T,
    end: T,
)
    requires
        silence_adds_nothing(plus, silence),
        adds(plus, silence, terms, end),
        forall|c: int| 0 <= c < terms.len() && c != at ==> #[trigger] terms[c] == silence,
        0 <= at < terms.len() ==> terms[at] == x,
    ensures
        end == if 0 <= at < terms.len() {
            x
        } else {
            silence
        },
    decreases terms.len(),
{
    if terms.len() > 0 {
        let mid = choose|mid: T|
            adds(plus, silence, terms.drop_last(), mid) && #[trigger] call_ensures(
                plus,
                (mid, terms.last()),
                end,
            );
        let n = terms.len() - 1;
        assert forall|c: int| 0 <= c < n && c != at implies #[trigger] terms.drop_last()[c]
            == silence by {
            assert(terms[c] == silence);
        }
        lemma_sum_of_one(plus, silence, terms.drop_last(), at, x, mid);
        if at == n {
            assert(mid == silence);
        } else {
            assert(terms[n] == silence);
        }
    }
}

/// Each ear hears its own: where one channel alone brings something to the ears,
/// the left sample of the frame is what it brings to the left ear and the right
/// one what it brings to the right.
pub proof fn each_ear_hears_its_own<T, P: Fn(T, T) -> T, G: Fn(T) -> T>(
    plan: Spatializer,
    plus: P,
    low: G,
    silence: T,
    input: Seq<T>,
    heard: Seq<(Vec<T>, Vec<T>)>,
    output: Seq<T>,
    f: int,
    at: int,
)
    requires
        plan.frame_mixed(plus, low, silence, input, heard, output, f),
        silence_adds_nothing(plus, silence),
        0 <= at < heard.len(),
        forall|c: int|
            0 <= c < heard.len() && c != at ==> (#[trigger] heard[c]).0@[f] == silence
                && heard[c].1@[f] == silence,
        plan.lfe_index matches Some(k) ==> forall|level: T| #[trigger]
            call_ensures(low, (input[f * plan.in_ch + k],), level) ==> level == silence,
    ensures
        output[2 * f] == heard[at].0@[f],
        output[2 * f + 1] == heard[at].1@[f],
{
    let lefts = heard_at(heard, false, f);
    let rights = heard_at(heard, true, f);
    assert forall|c: int| 0 <= c < heard.len() && c != at implies #[trigger] lefts[c] == silence
        && rights[c] == silence by {
        assert(heard[c].0@[f] == silence);
    }
    match plan.lfe_index {
        None => {
            lemma_sum_of_one(plus, silence, lefts, at, lefts[at], output[2 * f]);
            lemma_sum_of_one(plus, silence, rights, at, rights[at], output[2 * f + 1]);
        },
        Some(k) => {
            let level = choose|level: T|
                {
                    &&& #[trigger] call_ensures(low, (input[f * plan.in_ch + k],), level)
                    &&& adds(plus, silence, lefts.push(level), output[2 * f])
                    &&& adds(plus, silence, rights.push(level), output[2 * f + 1])
                };
            lemma_sum_of_one(plus, silence, lefts.push(level), at, lefts[at], output[2 * f]);
            lemma_sum_of_one(plus, silence, rights.push(level), at, rights[at], output[2 * f + 1]);
        },
    }
}

/// The low-frequency channel has no direction: where nothing else sounds, both
/// ears hear it, at the same level.
pub proof fn low_frequencies_have_no_side<T, P: Fn(T, T) -> T, G: Fn(T) -> T>(
    plan: Spatializer,
    plus: P,
    low: G,
    silence: T,
    input: Seq<T>,
    heard: Seq<(Vec<T>, Vec<T>)>,
    output: Seq<T>,
    f: int,
    k: usize,
)
    requires
        plan.frame_mixed(plus, low, silence, input, heard, output, f),
        silence_adds_nothing(plus, silence),
        forall|c: int|
            0 <= c < heard.len() ==> (#[trigger] heard[c]).0@[f] == silence && heard[c].1@[f]
                == silence,
        plan.lfe_index == Some(k),
    ensures
        output[2 * f] == output[2 * f + 1],
        call_ensures(low, (input[f * plan.in_ch + k],), output[2 * f]),
{
    let lefts = heard_at(heard, false, f);
    let rights = heard_at(heard, true, f);
    let level = choose|level: T|
        {
            &&& #[trigger] call_ensures(low, (input[f * plan.in_ch + k],), level)
            &&& adds(plus, silence, lefts.push(level), output[2 * f])
            &&& adds(plus, silence, rights.push(level), output[2 * f + 1])
        };
    let n = heard.len() as int;
    assert forall|c: int| 0 <= c < n implies #[trigger] lefts.push(level)[c] == silence
        && rights.push(level)[c] == silence by {
        assert(heard[c].0@[f] == silence);
    }
    assert forall|c: int| 0 <= c < n + 1 && c != n implies #[trigger] rights.push(level)[c]
        == silence by {
        assert(lefts.push(level)[c] == silence);
    }
    lemma_sum_of_one(plus, silence, lefts.push(level), n, level, output[2 * f]);
    lemma_sum_of_one(plus, silence, rights.push(level), n, level, output[2 * f + 1]);
}

/// A convolution that makes silence of silence.
pub open spec fn stays_silent<T: Copy, S: Copy, F: Transform<T, S>>(
    c: PartitionedConvolver<T, S, F>,
    silence: T,
) -> bool {
    forall|x: Seq<T>, end: PartitionedConvolver<T, S, F>, y: Seq<T>|
        (forall|i: int| 0 <= i < x.len() ==> x[i] == silence) && #[trigger] c.ran(x, end, y)
            ==> forall|i: int| 0 <= i < y.len() ==> y[i] == silence
}

/// Each of the first `n` speakers with a direction is in the list once, in order
/// and where it is heard from.
#[verifier::opaque]
spec fn lists(channels: Seq<PositionedChannel>, speakers: Seq<u32>, n: int) -> bool {
    &&& forall|c: int|
        0 <= c < channels.len() ==> {
            &&& (#[trigger] channels[c]).index < n
            &&& speakers[channels[c].index as int] != LFE
            &&& channels[c].position == heard_from(speakers[channels[c].index as int])
        }
    &&& forall|c: int, d: int|
        0 <= c < d < channels.len() ==> (#[trigger] channels[c]).index < (
        #[trigger] channels[d]).index
    &&& forall|i: int| 0 <= i < n && #[trigger] speakers[i] != LFE ==> has_index(channels, i)
}

spec fn has_index(channels: Seq<PositionedChannel>, i: int) -> bool {
    exists|c: int| 0 <= c < channels.len() && (#[trigger] channels[c]).index == i
}

proof fn lemma_placed(speakers: Seq<u32>, n: int)
    requires
        0 <= n <= speakers.len() <= usize::MAX,
    ensures
        lists(placed(speakers, n), speakers, n),
    decreases n,
{
    reveal(lists);
    if n > 0 {
        lemma_placed(speakers, n - 1);
        let before = placed(speakers, n - 1);
        let now = placed(speakers, n);
        assert forall|i: int| 0 <= i < n && #[trigger] speakers[i] != LFE implies has_index(
            now,
            i,
        ) by {
            if i < n - 1 {
                assert(has_index(before, i));
                let c = choose|c: int| 0 <= c < before.len() && (#[trigger] before[c]).index == i;
                assert(now[c] == before[c]);
            } else {
                assert(now[now.len() - 1].index == i);
            }
        }
    }
}

proof fn lemma_lfe_among(speakers: Seq<u32>, n: int, i: int)
    requires
        0 <= i < n <= speakers.len() <= usize::MAX,
        speakers[i] == LFE,
        forall|j: int| i < j < n ==> speakers[j] != LFE,
    ensures
        lfe_among(speakers, n) == Some(i as usize),
    decreases n,
{
    if n - 1 > i {
        lemma_lfe_among(speakers, n - 1, i);
    }
}

/// Channel `n` is heard as its speaker is: from the speaker's side and nowhere
/// else, or by both ears where that is the low-frequency one.
pub open spec fn is_placed(plan: Spatializer, n: int, speaker: u32) -> bool {
    if speaker == 0x8 {
        &&& plan.lfe_index == Some(n as usize)
        &&& forall|c: int|
            0 <= c < plan.channels@.len() ==> (#[trigger] plan.channels@[c]).index != n
    } else {
        exists|c: int|
            {
                &&& 0 <= c < plan.channels@.len()
                &&& (#[trigger] plan.channels@[c]).index == n
                &&& is_left(speaker) ==> plan.channels@[c].position.azimuth() < 0
                &&& is_right(speaker) ==> plan.channels@[c].position.azimuth() > 0
                &&& forall|d: int|
                    0 <= d < plan.channels@.len() && d != c ==> (
                    #[trigger] plan.channels@[d]).index != n
            }
    }
}

/// Every channel of a layout has its place: the low-frequency one goes to both
/// ears, and every other one is heard once, from the side that its speaker is on.
pub proof fn every_channel_is_placed(
    plan: Spatializer,
    from: ChannelLayout,
    max_block_frames: nat,
    n: int,
)
    requires
        plan.renders(from, max_block_frames),
        0 <= n < speakers_of(from).len(),
    ensures
        is_placed(plan, n, speakers_of(from)[n]),
{
    let speakers = speakers_of(from);
    lemma_at_most_one_each(from.0, 32);
    speakers_are_ascending(from.0);
    assert(speakers[n] == LFE ==> !speakers.skip(n + 1).contains(LFE));
    lemma_every_channel(plan, speakers, n);
}

proof fn lemma_every_channel(plan: Spatializer, speakers: Seq<u32>, n: int)
    requires
        0 <= n < speakers.len() <= usize::MAX,
        speakers[n] == LFE ==> !speakers.skip(n + 1).contains(LFE),
        plan.channels@ == placed(speakers, speakers.len() as int),
        plan.lfe_index == lfe_among(speakers, speakers.len() as int),
    ensures
        is_placed(plan, n, speakers[n]),
{
    let len = speakers.len() as int;
    lemma_placed(speakers, len);
    if speakers[n] == LFE {
        assert forall|j: int| n < j < len implies speakers[j] != LFE by {
            assert(speakers.skip(n + 1)[j - n - 1] == speakers[j]);
        }
        lemma_lfe_among(speakers, len, n);
        lemma_low_unlisted(plan.channels@, speakers, n);
    } else {
        speakers_are_heard_from_their_own_side(speakers[n]);
        lemma_listed_once(plan.channels@, speakers, n);
    }
}

proof fn lemma_low_unlisted(channels: Seq<PositionedChannel>, speakers: Seq<u32>, n: int)
    requires
        lists(channels, speakers, speakers.len() as int),
        0 <= n < speakers.len(),
        speakers[n] == LFE,
    ensures
        forall|c: int| 0 <= c < channels.len() ==> (#[trigger] channels[c]).index != n,
{
    reveal(lists);
}

proof fn lemma_listed_apart(channels: Seq<PositionedChannel>, speakers: Seq<u32>, c: int, d: int)
    requires
        lists(channels, speakers, speakers.len() as int),
        0 <= c < channels.len(),
        0 <= d < channels.len(),
    ensures
        channels[c].index < speakers.len(),
        speakers[channels[c].index as int] != LFE,
        c != d ==> channels[c].index != channels[d].index,
{
    reveal(lists);
    if c < d {
        assert(channels[c].index < channels[d].index);
    } else if d < c {
        assert(channels[d].index < channels[c].index);
    }
}

proof fn lemma_listed_once(channels: Seq<PositionedChannel>, speakers: Seq<u32>, n: int)
    requires
        lists(channels, speakers, speakers.len() as int),
        0 <= n < speakers.len(),
        speakers[n] != LFE,
    ensures
        exists|c: int|
            {
                &&& 0 <= c < channels.len()
                &&& (#[trigger] channels[c]).index == n
                &&& channels[c].position == heard_from(speakers[n])
                &&& forall|d: int|
                    0 <= d < channels.len() && d != c ==> (#[trigger] channels[d]).index != n
            },
{
    reveal(lists);
    assert(has_index(channels, n));
    let c = choose|c: int| 0 <= c < channels.len() && (#[trigger] channels[c]).index == n;
    assert forall|d: int| 0 <= d < channels.len() && d != c implies (
    #[trigger] channels[d]).index != n by {
        if d < c {
            assert(channels[d].index < channels[c].index);
        } else {
            assert(channels[c].index < channels[d].index);
        }
    }
}

proof fn lemma_at_most_one_each(mask: u32, n: int)
    requires
        0 <= n,
    ensures
        speakers_below(mask, n).len() <= n,
    decreases n,
{
    if n > 0 {
        lemma_at_most_one_each(mask, n - 1);
    }
}

/// The first `n` stereo frames are these samples, left and right.
pub open spec fn interleaves<T>(output: Seq<T>, left: Seq<T>, right: Seq<T>, n: int) -> bool {
    forall|f: int|
        #![trigger left[f]]
        #![trigger right[f]]
        0 <= f < n ==> output[2 * f] == left[f] && output[2 * f + 1] == right[f]
}

/// What stands at place `n` of frame `f`.
pub open spec fn in_frame<T>(input: Seq<T>, channels: int, f: int, n: int) -> T {
    input[f * channels + n]
}

/// A channel that sounds alone is heard through its own pair of convolutions:
/// what stands at its place in each frame goes into both, the left samples are
/// what its left one makes of it, and the right samples what its right one does.
pub proof fn one_channel_is_heard_through_its_own_pair<
    T: Copy,
    S: Copy,
    F: Transform<T, S>,
    P: Fn(T, T) -> T,
    G: Fn(T) -> T,
>(
    plan: Spatializer,
    from: ChannelLayout,
    max_block_frames: nat,
    plus: P,
    low: G,
    silence: T,
    before: Seq<(PartitionedConvolver<T, S, F>, PartitionedConvolver<T, S, F>)>,
    input: Seq<T>,
    start: Seq<T>,
    written: nat,
    after: Seq<(PartitionedConvolver<T, S, F>, PartitionedConvolver<T, S, F>)>,
    output: Seq<T>,
    at: int,
) -> (heard: (Seq<T>, Seq<T>))
    requires
        plan.wf(),
        plan.renders(from, max_block_frames),
        plan.rendered(plus, low, silence, before, input, start, written, after, output),
        silence_adds_nothing(plus, silence),
        0 <= at < plan.channels@.len() == before.len(),
        forall|c: int|
            0 <= c < before.len() && c != at ==> stays_silent((#[trigger] before[c]).0, silence)
                && stays_silent(before[c].1, silence),
        forall|f: int, n: int|
            0 <= f < written / 2 && 0 <= n < plan.in_ch && n != plan.channels@[at].index
                ==> #[trigger] in_frame(input, plan.in_ch as int, f, n) == silence,
        forall|level: T| #[trigger] call_ensures(low, (silence,), level) ==> level == silence,
    ensures
        ({
            let line = Seq::new(
                written / 2,
                |f: int| in_frame(input, plan.in_ch as int, f, plan.channels@[at].index as int),
            );
            &&& before[at].0.ran(line, after[at].0, heard.0)
            &&& before[at].1.ran(line, after[at].1, heard.1)
        }),
        interleaves(output, heard.0, heard.1, (written / 2) as int),
{
    let speakers = speakers_of(from);
    lemma_at_most_one_each(from.0, 32);
    lemma_placed(speakers, speakers.len() as int);
    let frames = (written / 2) as int;
    let all = choose|heard: Seq<(Vec<T>, Vec<T>)>|
        {
            &&& heard.len() == plan.channels@.len()
            &&& #[trigger] plan.heard_through(
                before,
                frames,
                input,
                after,
                heard,
                heard.len() as int,
            )
            &&& plan.frames_mixed(plus, low, silence, input, heard, output, frames)
        };
    let here = all[at];
    let line = Seq::new(
        written / 2,
        |f: int| in_frame(input, plan.in_ch as int, f, plan.channels@[at].index as int),
    );
    assert(plan.played(at, frames, input) =~= line);
    let left = here.0@;
    let right = here.1@;
    assert forall|f: int|
        #![trigger left[f]]
        #![trigger right[f]]
        0 <= f < frames implies output[2 * f] == left[f] && output[2 * f + 1] == right[f] by {
        assert(plan.frame_mixed(plus, low, silence, input, all, output, f));
        assert forall|c: int| 0 <= c < all.len() && c != at implies (#[trigger] all[c]).0@[f]
            == silence && all[c].1@[f] == silence by {
            let index = plan.channels@[c].index as int;
            lemma_listed_apart(plan.channels@, speakers, c, at);
            let quiet = plan.played(c, frames, input);
            assert forall|g: int| 0 <= g < quiet.len() implies quiet[g] == silence by {
                assert(in_frame(input, plan.in_ch as int, g, index) == silence);
            }
            assert(stays_silent(before[c].0, silence));
            assert(before[c].0.ran(quiet, after[c].0, all[c].0@));
            assert(before[c].1.ran(quiet, after[c].1, all[c].1@));
        }
        if let Some(k) = plan.lfe_index {
            lemma_lfe_is_low(speakers, speakers.len() as int);
            lemma_listed_apart(plan.channels@, speakers, at, at);
            assert(in_frame(input, plan.in_ch as int, f, k as int) == silence);
        }
        each_ear_hears_its_own(plan, plus, low, silence, input, all, output, f, at);
    }
    assert(interleaves(output, left, right, frames));
    (left, right)
}

proof fn lemma_lfe_is_low(speakers: Seq<u32>, n: int)
    requires
        0 <= n <= speakers.len() <= usize::MAX,
    ensures
        lfe_among(speakers, n) matches Some(k) ==> k < n && speakers[k as int] == LFE,
    decreases n,
{
    if n > 0 {
        lemma_lfe_is_low(speakers, n - 1);
    }
}

/// What comes from a side is spread out on its way round the head, from either side
/// alike; what lies on neither side is not.
pub proof fn the_head_shadows_the_sides(azimuth: int)
    requires
        -180 <= azimuth <= 180,
    ensures
        shadow_length(azimuth) == shadow_length(-azimuth),
        shadow_length(azimuth) > 1 <==> azimuth != 0 && azimuth != 180 && azimuth != -180,
        shadow_length(azimuth) <= 4,
        shadow_length(90) == 4,
{
}

/// The convolution works on no more than it must: on a power of two that holds a
/// block, and that half of it would not.
pub proof fn a_partition_just_holds_a_block(n: nat, p: nat)
    requires
        p >= 1,
        p < 2 * n || p == 1,
    ensures
        power_from(n, p) >= n,
        power_from(n, p) < 2 * n || power_from(n, p) == 1,
        exists|k: nat| power_from(n, p) == #[trigger] (p * vstd::arithmetic::power2::pow2(k)),
    decreases 2 * n - p,
{
    reveal(vstd::arithmetic::power2::pow2);
    vstd::arithmetic::power2::lemma2_to64();
    if p >= n {
        assert(power_from(n, p) == p * vstd::arithmetic::power2::pow2(0));
    } else {
        a_partition_just_holds_a_block(n, 2 * p);
        let k = choose|k: nat|
            power_from(n, 2 * p) == #[trigger] ((2 * p) * vstd::arithmetic::power2::pow2(k));
        vstd::arithmetic::power2::lemma_pow2_unfold(k + 1);
        let half = vstd::arithmetic::power2::pow2(k);
        assert((2 * p) * half == p * (2 * half)) by (nonlinear_arith);
        assert(power_from(n, p) == p * vstd::arithmetic::power2::pow2(k + 1));
    }
}

} // verus!
