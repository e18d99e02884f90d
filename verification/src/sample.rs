//! Frame and format value types shared by the audio path.
use crate::dsp::DspSpec;
use crate::float::{Float32, Float64};
use vstd::prelude::*;

verus! {

/// Why an audio value or a topology was refused.
#[derive(Debug, Clone, PartialEq)]
pub enum DomainError {
    /// A gain must be finite and non-negative.
    InvalidGain(Float32),
    /// The group targets an output that is not in the topology.
    DanglingOutputRef { group: GroupId, output: OutputId },
    ResamplerInit(String),
    ChannelMismatch { from: u16, to: u16 },
    /// A resample ratio must be finite and within its two bounds.
    InvalidResampleRatio(Float64),
    /// The format's channel count disagrees with its layout.
    InvalidLayout { channels: u16, layout_count: u16 },
    /// The frequency must be in (0, nyquist) and q must be positive.
    InvalidEqBand { freq_hz: Float32, q: Float32 },
    /// The group's duck names a trigger that is not in the topology.
    DanglingDuckTrigger { group: GroupId, trigger: GroupId },
}

/// Front left, the lowest of the `SPEAKER_*` bits that a WASAPI channel mask
/// is made of.
pub const FL: u32 = 0x1;

/// Front right.
pub const FR: u32 = 0x2;

/// Front center.
pub const FC: u32 = 0x4;

/// Low frequency effects.
pub const LFE: u32 = 0x8;

/// Back left.
pub const BL: u32 = 0x10;

/// Back right.
pub const BR: u32 = 0x20;

/// Front left of center.
pub const FLC: u32 = 0x40;

/// Front right of center.
pub const FRC: u32 = 0x80;

/// Back center.
pub const BC: u32 = 0x100;

/// Side left.
pub const SL: u32 = 0x200;

/// Side right.
pub const SR: u32 = 0x400;

/// The speakers to the left of the listener, by their bits of a WASAPI channel
/// mask: front left, back left, front left of center, side left.
pub open spec fn is_left(speaker: u32) -> bool {
    speaker == 0x1 || speaker == 0x10 || speaker == 0x40 || speaker == 0x200
}

/// The speakers to the right of the listener: front right, back right, front
/// right of center, side right.
pub open spec fn is_right(speaker: u32) -> bool {
    speaker == 0x2 || speaker == 0x20 || speaker == 0x80 || speaker == 0x400
}

/// The speaker at the same place on the other side. One on neither side stays
/// where it is.
pub open spec fn across(speaker: u32) -> u32 {
    if is_left(speaker) {
        (2 * speaker) as u32
    } else if is_right(speaker) {
        (speaker / 2) as u32
    } else {
        speaker
    }
}

/// A speaker is where its bit of a WASAPI channel mask says: front center and
/// low frequency are the third and the fourth, back center is the ninth, and of
/// each pair the left one is on the left.
pub proof fn speakers_have_their_bits()
    ensures
        FC == 0x4 && LFE == 0x8 && BC == 0x100,
        is_left(FL) && is_left(BL) && is_left(FLC) && is_left(SL),
        FL < BL < FLC < SL,
        across(FL) == FR && across(BL) == BR && across(FLC) == FRC && across(SL) == SR,
{
}

/// Speaker-position set, as a WASAPI channel mask. Built by
/// [`ChannelLayout::from_mask`] from a device's own mask, or by
/// [`ChannelLayout::default_for_count`] where none is known.
#[derive(Debug, Clone, Copy, PartialEq, Eq, Structural)]
pub struct ChannelLayout(pub u32);

/// Whether position `b` of the mask is occupied.
pub open spec fn has_bit(mask: u32, b: int) -> bool {
    0 <= b < 32 && (mask >> (b as u32)) & 1 == 1
}

/// How many of the lowest `n` positions of the mask are occupied.
pub open spec fn bits_below(mask: u32, n: int) -> nat
    decreases n,
{
    if n <= 0 {
        0
    } else {
        bits_below(mask, n - 1) + (if has_bit(mask, n - 1) {
            1nat
        } else {
            0nat
        })
    }
}

/// Number of speaker positions in the mask.
pub open spec fn speaker_count(mask: u32) -> nat {
    bits_below(mask, 32)
}

/// The occupied ones of the lowest `n` positions as single-bit masks, lowest
/// first.
pub open spec fn speakers_below(mask: u32, n: int) -> Seq<u32>
    decreases n,
{
    if n <= 0 {
        Seq::empty()
    } else if has_bit(mask, n - 1) {
        speakers_below(mask, n - 1).push(1u32 << ((n - 1) as u32))
    } else {
        speakers_below(mask, n - 1)
    }
}

/// The mask of `default_for_count`: the known positions of the standard
/// layouts, and past 7.1 one position of no name for each further channel,
/// counted up from the bit above the named ones.
pub open spec fn default_mask(channels: int) -> u32 {
    if channels <= 0 {
        0
    } else if channels == 1 {
        0x4
    } else if channels == 2 {
        0x3
    } else if channels == 3 {
        0x7
    } else if channels == 4 {
        0x33
    } else if channels == 5 {
        0x37
    } else if channels == 6 {
        0x3f
    } else if channels == 7 {
        0x13f
    } else {
        extended_mask((channels - 8) as nat)
    }
}

/// The 7.1 mask with `extra` positions of no name above the named ones.
pub open spec fn extended_mask(extra: nat) -> u32
    decreases extra,
{
    if extra == 0 {
        0x63f
    } else {
        extended_mask((extra - 1) as nat) | (1u32 << ((10 + extra) as u32))
    }
}

proof fn lemma_bits_below_bound(mask: u32, n: int)
    requires
        0 <= n <= 32,
    ensures
        bits_below(mask, n) <= n,
    decreases n,
{
    if n > 0 {
        lemma_bits_below_bound(mask, n - 1);
    }
}

proof fn lemma_with_bit(mask: u32, k: u32, b: u32)
    by (bit_vector)
    requires
        k < 32,
        b < 32,
    ensures
        ((mask | (1u32 << k)) >> b) & 1 == (if b == k {
            1u32
        } else {
            (mask >> b) & 1
        }),
{
}

proof fn lemma_bits_with(mask: u32, k: u32, n: int)
    requires
        0 <= n <= 32,
        k < 32,
        !has_bit(mask, k as int),
    ensures
        bits_below(mask | (1u32 << k), n) == bits_below(mask, n) + (if k < n {
            1nat
        } else {
            0nat
        }),
    decreases n,
{
    if n > 0 {
        lemma_bits_with(mask, k, n - 1);
        lemma_with_bit(mask, k, (n - 1) as u32);
    }
}

proof fn lemma_extended(extra: nat)
    requires
        extra <= 21,
    ensures
        speaker_count(extended_mask(extra)) == 8 + extra,
        forall|b: int| 11 + extra <= b < 32 ==> !has_bit(extended_mask(extra), b),
        forall|b: int| 0 <= b < 11 ==> has_bit(extended_mask(extra), b) == has_bit(0x63f, b),
    decreases extra,
{
    if extra == 0 {
        lemma_named_counts();
        assert forall|b: int| 11 <= b < 32 implies !has_bit(0x63f, b) by {
            let s: u32 = b as u32;
            assert((0x63fu32 >> s) & 1 == 0) by (bit_vector)
                requires
                    11 <= s < 32,
            ;
        }
    } else {
        let less: nat = (extra - 1) as nat;
        lemma_extended(less);
        let k: u32 = (10 + extra) as u32;
        assert(!has_bit(extended_mask(less), k as int));
        lemma_bits_with(extended_mask(less), k, 32);
        assert forall|b: int| 11 + extra <= b < 32 implies !has_bit(extended_mask(extra), b) by {
            assert(!has_bit(extended_mask(less), b));
            lemma_with_bit(extended_mask(less), k, b as u32);
        }
        assert forall|b: int| 0 <= b < 11 implies has_bit(extended_mask(extra), b) == has_bit(
            0x63f,
            b,
        ) by {
            assert(has_bit(extended_mask(less), b) == has_bit(0x63f, b));
            lemma_with_bit(extended_mask(less), k, b as u32);
        }
    }
}

/// The bits of the lowest twelve positions, added up.
spec fn low_bits(mask: u32) -> int {
    (mask & 1) + ((mask >> 1) & 1) + ((mask >> 2) & 1) + ((mask >> 3) & 1) + ((mask >> 4) & 1) + ((
    mask >> 5) & 1) + ((mask >> 6) & 1) + ((mask >> 7) & 1) + ((mask >> 8) & 1) + ((mask >> 9) & 1)
        + ((mask >> 10) & 1) + ((mask >> 11) & 1)
}

proof fn lemma_low_bits(mask: u32)
    requires
        mask < 0x1000,
    ensures
        speaker_count(mask) == low_bits(mask),
{
    assert forall|b: int| 12 <= b < 32 implies !has_bit(mask, b) by {
        let s: u32 = b as u32;
        assert((mask >> s) & 1 == 0) by (bit_vector)
            requires
                12 <= s < 32,
                mask < 0x1000,
        ;
    }
    lemma_no_bits_above(mask, 12, 32);
    reveal_with_fuel(bits_below, 13);
    assert(mask >> 0 == mask) by (bit_vector);
    assert((mask & 1) <= 1 && ((mask >> 1) & 1) <= 1 && ((mask >> 2) & 1) <= 1 && ((mask >> 3) & 1)
        <= 1 && ((mask >> 4) & 1) <= 1 && ((mask >> 5) & 1) <= 1 && ((mask >> 6) & 1) <= 1 && ((mask
        >> 7) & 1) <= 1 && ((mask >> 8) & 1) <= 1 && ((mask >> 9) & 1) <= 1 && ((mask >> 10) & 1)
        <= 1 && ((mask >> 11) & 1) <= 1) by (bit_vector);
}

proof fn lemma_no_bits_above(mask: u32, low: int, n: int)
    requires
        0 <= low <= n <= 32,
        forall|b: int| low <= b < n ==> !has_bit(mask, b),
    ensures
        bits_below(mask, n) == bits_below(mask, low),
    decreases n - low,
{
    if low < n {
        lemma_no_bits_above(mask, low, n - 1);
    }
}

proof fn lemma_named_counts()
    ensures
        speaker_count(0) == 0,
        speaker_count(0x4) == 1,
        speaker_count(0x3) == 2,
        speaker_count(0x7) == 3,
        speaker_count(0x33) == 4,
        speaker_count(0x37) == 5,
        speaker_count(0x3f) == 6,
        speaker_count(0x13f) == 7,
        speaker_count(0x63f) == 8,
{
    lemma_low_bits(0);
    lemma_low_bits(0x4);
    lemma_low_bits(0x3);
    lemma_low_bits(0x7);
    lemma_low_bits(0x33);
    lemma_low_bits(0x37);
    lemma_low_bits(0x3f);
    lemma_low_bits(0x13f);
    lemma_low_bits(0x63f);
    assert(low_bits(0) == 0 && low_bits(0x4) == 1 && low_bits(0x3) == 2 && low_bits(0x7) == 3
        && low_bits(0x33) == 4 && low_bits(0x37) == 5 && low_bits(0x3f) == 6 && low_bits(0x13f) == 7
        && low_bits(0x63f) == 8) by (bit_vector);
}

/// A default layout describes exactly the channels it was made for.
pub proof fn default_layout_has_one_speaker_per_channel(channels: int)
    requires
        0 <= channels <= 29,
    ensures
        speaker_count(default_mask(channels)) == channels,
{
    lemma_named_counts();
    if channels >= 8 {
        lemma_extended((channels - 8) as nat);
    }
}


proof fn lemma_speakers_len(mask: u32, n: int)
    ensures
        speakers_below(mask, n).len() == bits_below(mask, n),
    decreases n,
{
    if n > 0 {
        lemma_speakers_len(mask, n - 1);
    }
}

proof fn lemma_shift_order(i: u32, j: u32)
    by (bit_vector)
    requires
        i < j < 32,
    ensures
        (1u32 << i) < (1u32 << j),
{
}

proof fn lemma_speaker_member(mask: u32, b: u32)
    by (bit_vector)
    requires
        b < 32,
    ensures
        (mask & (1u32 << b) != 0) == ((mask >> b) & 1 == 1),
{
}

/// Every member of `speakers_below` is the single bit of an occupied position
/// below `n`.
proof fn lemma_speaker_positions(mask: u32, n: int, i: int)
    requires
        0 <= n <= 32,
        0 <= i < speakers_below(mask, n).len(),
    ensures
        exists|b: int|
            0 <= b < n && has_bit(mask, b) && #[trigger] (1u32 << (b as u32)) == speakers_below(
                mask,
                n,
            )[i],
    decreases n,
{
    if n > 0 {
        if has_bit(mask, n - 1) && i == speakers_below(mask, n - 1).len() {
            assert((1u32 << ((n - 1) as u32)) == speakers_below(mask, n)[i]);
        } else {
            lemma_speaker_positions(mask, n - 1, i);
            let b = choose|b: int|
                0 <= b < n - 1 && has_bit(mask, b) && #[trigger] (1u32 << (b as u32))
                    == speakers_below(mask, n - 1)[i];
            assert((1u32 << (b as u32)) == speakers_below(mask, n)[i]);
        }
    }
}

proof fn lemma_speakers_ascend(mask: u32, n: int, i: int, j: int)
    requires
        0 <= n <= 32,
        0 <= i < j < speakers_below(mask, n).len(),
    ensures
        speakers_below(mask, n)[i] < speakers_below(mask, n)[j],
    decreases n,
{
    if n > 0 {
        let rest = speakers_below(mask, n - 1);
        if has_bit(mask, n - 1) && j == rest.len() {
            lemma_speaker_positions(mask, n - 1, i);
            let b = choose|b: int|
                0 <= b < n - 1 && has_bit(mask, b) && #[trigger] (1u32 << (b as u32)) == rest[i];
            lemma_shift_order(b as u32, (n - 1) as u32);
        } else {
            lemma_speakers_ascend(mask, n - 1, i, j);
        }
    }
}

/// The speakers of a layout come in ascending bit order, as many as the
/// layout counts.
pub proof fn speakers_are_ascending(mask: u32)
    ensures
        speakers_below(mask, 32).len() == speaker_count(mask),
        forall|i: int, j: int|
            0 <= i < j < speakers_below(mask, 32).len() ==> speakers_below(mask, 32)[i]
                < speakers_below(mask, 32)[j],
{
    lemma_speakers_len(mask, 32);
    assert forall|i: int, j: int| 0 <= i < j < speakers_below(mask, 32).len() implies speakers_below(
        mask,
        32,
    )[i] < speakers_below(mask, 32)[j] by {
        lemma_speakers_ascend(mask, 32, i, j);
    }
}

/// Every position that the 7.1 layout names is kept by each wider default
/// layout.
pub proof fn wider_layouts_keep_the_named_speakers(channels: int, b: int)
    requires
        8 <= channels <= 29,
        0 <= b < 32,
        has_bit(default_mask(8), b),
    ensures
        has_bit(default_mask(channels), b),
{
    lemma_extended(0);
    lemma_extended((channels - 8) as nat);
    if b >= 11 {
        assert(!has_bit(extended_mask(0), b));
    }
}

/// How many positions a layout for a number of channels has: one for each, as
/// long as the mask has room.
pub open spec fn positions_for(channels: int) -> int {
    if channels <= 29 {
        channels
    } else {
        29
    }
}

impl ChannelLayout {
    /// Front center alone.
    pub fn mono() -> (r: ChannelLayout)
        ensures
            r.0 == 0x4,
            r.0 == default_mask(1),
    {
        ChannelLayout(FC)
    }

    /// Front left and right.
    pub fn stereo() -> (r: ChannelLayout)
        ensures
            r.0 == 0x3,
            r.0 == default_mask(2),
    {
        ChannelLayout(0x3)
    }

    /// Front and back pairs.
    pub fn quad() -> (r: ChannelLayout)
        ensures
            r.0 == 0x33,
            r.0 == default_mask(4),
    {
        ChannelLayout(0x33)
    }

    /// Front pair, center, low frequency effects and back pair.
    pub fn surround_5_1() -> (r: ChannelLayout)
        ensures
            r.0 == 0x3f,
            r.0 == default_mask(6),
    {
        ChannelLayout(0x3f)
    }

    /// 5.1 with the side pair.
    pub fn surround_7_1() -> (r: ChannelLayout)
        ensures
            r.0 == 0x63f,
            r.0 == default_mask(8),
    {
        ChannelLayout(0x63f)
    }

    /// A mask of zero, or one whose set bits disagree with `channels` (both
    /// happen on real drivers), falls back to [`Self::default_for_count`]
    /// rather than giving a layout that lies about its own channel count.
    pub fn from_mask(mask: u32, channels: u16) -> (r: ChannelLayout)
        ensures
            r.0 == (if mask != 0 && speaker_count(mask) == channels {
                mask
            } else {
                default_mask(positions_for(channels as int))
            }),
            speaker_count(r.0) == channels || speaker_count(r.0) == 29 < channels,
    {
        if mask != 0 && ChannelLayout(mask).count() == channels {
            ChannelLayout(mask)
        } else {
            Self::default_for_count(channels)
        }
    }

    /// Standard layout per channel count: 1 mono, 2 stereo, 3 left, right and
    /// center, 4 quad, 5 5.0, 6 5.1, 7 6.1, 8 7.1. Above 8 the first eight are
    /// the 7.1 positions and the rest are positions of no name, which never
    /// collide with a named speaker. The mask has room for 29 channels; for more
    /// it is full, and counts fewer than there are.
    pub fn default_for_count(channels: u16) -> (r: ChannelLayout)
        ensures
            r.0 == default_mask(positions_for(channels as int)),
            speaker_count(r.0) == positions_for(channels as int),
    {
        proof {
            default_layout_has_one_speaker_per_channel(positions_for(channels as int));
        }
        let positions: u16 = if channels <= 29 {
            channels
        } else {
            29
        };
        let mask: u32 = match positions {
            0 => 0,
            1 => 0x4,
            2 => 0x3,
            3 => 0x7,
            4 => 0x33,
            5 => 0x37,
            6 => 0x3f,
            7 => 0x13f,
            n => {
                let extra: u32 = (n - 8) as u32;
                let mut mask: u32 = 0x63f;
                let mut i: u32 = 0;
                while i < extra
                    invariant
                        i <= extra <= 21,
                        mask == extended_mask(i as nat),
                    decreases extra - i,
                {
                    mask = mask | (1u32 << (11 + i));
                    i = i + 1;
                }
                mask
            },
        };
        ChannelLayout(mask)
    }

    /// Number of speaker positions in this layout.
    pub fn count(&self) -> (r: u16)
        ensures
            r == speaker_count(self.0),
    {
        let mut n: u16 = 0;
        let mut b: u32 = 0;
        while b < 32
            invariant
                b <= 32,
                n == bits_below(self.0, b as int),
                n <= b,
            decreases 32 - b,
        {
            if (self.0 >> b) & 1 == 1 {
                n = n + 1;
            }
            b = b + 1;
        }
        n
    }

    /// Set bits in ascending order. The position of a speaker in this list is
    /// its column or row in a channel matrix, and matches the interleave order
    /// of WASAPI.
    pub fn speakers(&self) -> (r: Vec<u32>)
        ensures
            r@ == speakers_below(self.0, 32),
            r@.len() == speaker_count(self.0),
    {
        proof {
            lemma_speakers_len(self.0, 32);
        }
        let mut out: Vec<u32> = Vec::new();
        let mut b: u32 = 0;
        while b < 32
            invariant
                b <= 32,
                out@ == speakers_below(self.0, b as int),
            decreases 32 - b,
        {
            let bit: u32 = 1u32 << b;
            proof {
                lemma_speaker_member(self.0, b);
            }
            if self.0 & bit != 0 {
                out.push(bit);
            }
            b = b + 1;
        }
        out
    }
}

/// PCM format. Samples are interleaved by `channels`.
#[derive(Debug, Clone, Copy, PartialEq, Eq, Structural)]
pub struct Format {
    pub sample_rate: u32,
    pub channels: u16,
    pub layout: ChannelLayout,
}

/// What a gain may be: finite, and zero or greater.
pub open spec fn valid_gain(value: Float32) -> bool {
    value.finite() && (value.equals(Float32 { bits: 0 }) || (Float32 { bits: 0 }).less(value))
}

/// Linear gain factor. Always finite and non-negative.
#[derive(Debug, Clone, Copy, PartialEq)]
pub struct Gain {
    value: Float32,
}

impl DeepView for Gain {
    type V = Float32;

    closed spec fn deep_view(&self) -> Float32 {
        self.value
    }
}

impl Gain {
    #[verifier::type_invariant]
    spec fn valid(self) -> bool {
        valid_gain(self.value)
    }

    /// The gain of one.
    pub fn unity() -> (r: Gain)
        ensures
            r.deep_view().bits == 0x3f80_0000,
    {
        Gain { value: Float32 { bits: 0x3f80_0000 } }
    }

    /// The gain of zero.
    pub fn silent() -> (r: Gain)
        ensures
            r.deep_view().bits == 0,
    {
        Gain { value: Float32 { bits: 0 } }
    }

    pub fn new(value: Float32) -> (r: Result<Gain, DomainError>)
        ensures
            match r {
                Ok(gain) => valid_gain(value) && gain.deep_view() == value,
                Err(e) => !valid_gain(value) && e == DomainError::InvalidGain(value),
            },
    {
        if value.is_finite() && value.is_non_negative() {
            Ok(Gain { value })
        } else {
            Err(DomainError::InvalidGain(value))
        }
    }

    pub fn value(self) -> (r: Float32)
        ensures
            r == self.deep_view(),
            valid_gain(r),
    {
        proof {
            use_type_invariant(self);
        }
        self.value
    }

    /// Whether two gains are the same number.
    pub fn same(self, other: Gain) -> (r: bool)
        ensures
            r == self.deep_view().equals(other.deep_view()),
    {
        self.value.same(other.value)
    }
}

/// The bits of 0.9, the lowest resample ratio.
pub const MIN_RESAMPLE_RATIO: u64 = 0x3fec_cccc_cccc_cccd;

/// The bits of 1.1, the highest resample ratio.
pub const MAX_RESAMPLE_RATIO: u64 = 0x3ff1_9999_9999_999a;

/// What a resample ratio may be: a number from 0.9 to 1.1. Drift correction
/// is a small continuous nudge, never a large jump.
pub open spec fn valid_ratio(value: Float64) -> bool {
    (Float64 { bits: MIN_RESAMPLE_RATIO }).at_most(value) && value.at_most(
        Float64 { bits: MAX_RESAMPLE_RATIO },
    )
}

/// Target ratio of the drift correction. Always within its two bounds.
#[derive(Debug, Clone, Copy, PartialEq)]
pub struct ResampleRatio {
    value: Float64,
}

impl DeepView for ResampleRatio {
    type V = Float64;

    closed spec fn deep_view(&self) -> Float64 {
        self.value
    }
}

impl ResampleRatio {
    #[verifier::type_invariant]
    spec fn valid(self) -> bool {
        valid_ratio(self.value)
    }

    /// The ratio of one.
    pub fn unity() -> (r: ResampleRatio)
        ensures
            r.deep_view().bits == 0x3ff0_0000_0000_0000,
    {
        ResampleRatio { value: Float64 { bits: 0x3ff0_0000_0000_0000 } }
    }

    pub fn new(value: Float64) -> (r: Result<ResampleRatio, DomainError>)
        ensures
            match r {
                Ok(ratio) => valid_ratio(value) && ratio.deep_view() == value,
                Err(e) => !valid_ratio(value) && e == DomainError::InvalidResampleRatio(value),
            },
    {
        let low = Float64::from_bits(MIN_RESAMPLE_RATIO);
        let high = Float64::from_bits(MAX_RESAMPLE_RATIO);
        if value.is_within(low, high) {
            Ok(ResampleRatio { value })
        } else {
            Err(DomainError::InvalidResampleRatio(value))
        }
    }

    pub fn value(self) -> (r: Float64)
        ensures
            r == self.deep_view(),
            valid_ratio(r),
    {
        proof {
            use_type_invariant(self);
        }
        self.value
    }
}

/// A group, by its position in the topology.
#[derive(Debug, Clone, Copy, PartialEq, Eq, Hash, Structural)]
pub struct GroupId(pub u16);

/// An output, by its position in the topology.
#[derive(Debug, Clone, Copy, PartialEq, Eq, Hash, Structural)]
pub struct OutputId(pub u16);

impl DeepView for GroupId {
    type V = GroupId;

    open spec fn deep_view(&self) -> GroupId {
        *self
    }
}

/// Cross-group sidechain, configured on the target group: its level drops
/// when `trigger` carries signal.
#[derive(Debug, Clone, Copy, PartialEq)]
pub struct DuckSpec {
    pub trigger: GroupId,
    pub amount_db: Float32,
    pub threshold_db: Float32,
    pub attack_ms: Float32,
    pub release_ms: Float32,
}

/// One group of a topology. There is no solo flag: solo lives only as long as
/// the mixer, so every rebuild starts each group unsoloed.
#[derive(Debug, Clone)]
pub struct GroupSpec {
    pub id: GroupId,
    pub gain: Gain,
    pub follow_master: bool,
    pub output: OutputId,
    pub input_format: Format,
    /// Stages that run after gain, before the channel matrix.
    pub dsp: Vec<DspSpec>,
    pub duck: Option<DuckSpec>,
    /// Virtual surround, in effect only where the output is stereo.
    pub spatial: bool,
    pub mute: bool,
}

#[derive(Debug, Clone)]
pub struct OutputSpec {
    pub id: OutputId,
    pub format: Format,
}

#[derive(Debug, Clone)]
pub struct Topology {
    pub master: Gain,
    pub groups: Vec<GroupSpec>,
    pub outputs: Vec<OutputSpec>,
}

} // verus!
