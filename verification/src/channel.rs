//! Conversion between channel layouts: which input speaker reaches which
//! output speaker, and at what level.
//!
//! A speaker that the output has too passes through at unity, center and
//! surrounds fold to the nearest speaker at -3 dB, and the low-frequency
//! channel is dropped. An input position that the output does not know folds
//! into every output channel at -3 dB: no channel is lost, and none is
//! refused.
use crate::float::Float32;
use crate::sample::{
    across, is_left, is_right, speaker_count, speakers_are_ascending, speakers_below, ChannelLayout, BC, BL, BR, FC, FL, FLC,
    FR, FRC, LFE, SL, SR,
};
use crate::span::adds;
use vstd::arithmetic::power2::pow2;
use vstd::prelude::*;

verus! {

/// The level at which an input channel reaches an output channel.
#[derive(Debug, Clone, Copy, PartialEq, Eq, Structural)]
pub enum Level {
    Off,
    Unity,
    /// -3 dB, the square root of one half.
    Fold,
}

/// Every output speaker at -3 dB.
pub open spec fn everywhere(out: Seq<u32>) -> Seq<(u32, Level)> {
    Seq::new(out.len(), |i: int| (out[i], Level::Fold))
}

/// Where the signal of one input speaker goes, given the output speakers: the
/// exact match first, the nearest fold next, every channel at last.
pub open spec fn folded(spk: u32, out: Seq<u32>) -> Seq<(u32, Level)> {
    if spk != LFE && out.contains(spk) && (spk == FL || spk == FR || spk == FC || spk == BL || spk
        == SL || spk == BR || spk == SR || spk == BC || spk == FLC || spk == FRC) {
        seq![(spk, Level::Unity)]
    } else if spk == LFE {
        if out.contains(LFE) {
            seq![(LFE, Level::Unity)]
        } else {
            seq![]
        }
    } else if (spk == FL || spk == FR) && out.contains(FC) {
        seq![(FC, Level::Unity)]
    } else if spk == FC && (out.contains(FL) || out.contains(FR)) {
        seq![(FL, Level::Fold), (FR, Level::Fold)]
    } else if (spk == BL || spk == SL) && out.contains(FL) {
        seq![(FL, Level::Fold)]
    } else if (spk == BR || spk == SR) && out.contains(FR) {
        seq![(FR, Level::Fold)]
    } else if spk == BC && out.contains(BL) && out.contains(BR) {
        seq![(BL, Level::Fold), (BR, Level::Fold)]
    } else if spk == BC && out.contains(SL) && out.contains(SR) {
        seq![(SL, Level::Fold), (SR, Level::Fold)]
    } else if spk == BC && out.contains(FL) && out.contains(FR) {
        seq![(FL, Level::Fold), (FR, Level::Fold)]
    } else if spk == FLC && out.contains(FL) {
        seq![(FL, Level::Unity)]
    } else if spk == FRC && out.contains(FR) {
        seq![(FR, Level::Unity)]
    } else {
        everywhere(out)
    }
}

/// The level that a list of targets gives one speaker, from position `from`.
pub open spec fn level_from(targets: Seq<(u32, Level)>, speaker: u32, from: int) -> Level
    decreases targets.len() - from,
{
    if from < 0 || from >= targets.len() {
        Level::Off
    } else if targets[from].0 == speaker {
        targets[from].1
    } else {
        level_from(targets, speaker, from + 1)
    }
}

/// The level at which `spk` reaches the output speaker `to`.
pub open spec fn level_between(spk: u32, out: Seq<u32>, to: u32) -> Level {
    level_from(folded(spk, out), to, 0)
}

/// The speakers of a layout, lowest bit first.
pub open spec fn speakers_of(layout: ChannelLayout) -> Seq<u32> {
    speakers_below(layout.0, 32)
}

/// Whether a speaker is in a list.
pub fn has_speaker(out: &Vec<u32>, speaker: u32) -> (r: bool)
    ensures
        r == out@.contains(speaker),
{
    let mut i: usize = 0;
    while i < out.len()
        invariant
            i <= out.len(),
            forall|j: int| 0 <= j < i ==> out@[j] != speaker,
        decreases out.len() - i,
    {
        if out[i] == speaker {
            assert(out@[i as int] == speaker);
            return true;
        }
        i = i + 1;
    }
    false
}

fn one(target: u32, level: Level) -> (r: Vec<(u32, Level)>)
    ensures
        r@ == seq![(target, level)],
{
    let mut list: Vec<(u32, Level)> = Vec::new();
    list.push((target, level));
    list
}

fn both(left: u32, right: u32) -> (r: Vec<(u32, Level)>)
    ensures
        r@ == seq![(left, Level::Fold), (right, Level::Fold)],
{
    let mut list: Vec<(u32, Level)> = Vec::new();
    list.push((left, Level::Fold));
    list.push((right, Level::Fold));
    list
}

fn spread(out: &Vec<u32>) -> (r: Vec<(u32, Level)>)
    ensures
        r@ == everywhere(out@),
{
    let mut list: Vec<(u32, Level)> = Vec::new();
    let mut i: usize = 0;
    while i < out.len()
        invariant
            i <= out.len(),
            list@ == Seq::new(i as nat, |k: int| (out@[k], Level::Fold)),
        decreases out.len() - i,
    {
        list.push((out[i], Level::Fold));
        i = i + 1;
    }
    list
}

/// Where the signal of one input speaker goes and at what level.
pub fn fold_targets(spk: u32, out: &Vec<u32>) -> (r: Vec<(u32, Level)>)
    ensures
        r@ == folded(spk, out@),
{
    let named = spk == FL || spk == FR || spk == FC || spk == BL || spk == SL || spk == BR || spk
        == SR || spk == BC || spk == FLC || spk == FRC;
    if named && has_speaker(out, spk) {
        one(spk, Level::Unity)
    } else if spk == LFE {
        if has_speaker(out, LFE) {
            one(LFE, Level::Unity)
        } else {
            let none: Vec<(u32, Level)> = Vec::new();
            none
        }
    } else if (spk == FL || spk == FR) && has_speaker(out, FC) {
        one(FC, Level::Unity)
    } else if spk == FC && (has_speaker(out, FL) || has_speaker(out, FR)) {
        both(FL, FR)
    } else if (spk == BL || spk == SL) && has_speaker(out, FL) {
        one(FL, Level::Fold)
    } else if (spk == BR || spk == SR) && has_speaker(out, FR) {
        one(FR, Level::Fold)
    } else if spk == BC && has_speaker(out, BL) && has_speaker(out, BR) {
        both(BL, BR)
    } else if spk == BC && has_speaker(out, SL) && has_speaker(out, SR) {
        both(SL, SR)
    } else if spk == BC && has_speaker(out, FL) && has_speaker(out, FR) {
        both(FL, FR)
    } else if spk == FLC && has_speaker(out, FL) {
        one(FL, Level::Unity)
    } else if spk == FRC && has_speaker(out, FR) {
        one(FR, Level::Unity)
    } else {
        spread(out)
    }
}

fn level_of(targets: &Vec<(u32, Level)>, speaker: u32) -> (r: Level)
    ensures
        r == level_from(targets@, speaker, 0),
{
    let mut i: usize = 0;
    while i < targets.len()
        invariant
            i <= targets.len(),
            level_from(targets@, speaker, 0) == level_from(targets@, speaker, i as int),
        decreases targets.len() - i,
    {
        if targets[i].0 == speaker {
            return targets[i].1;
        }
        i = i + 1;
    }
    Level::Off
}

/// The levels between two layouts, one row for each output channel.
#[derive(Debug)]
pub struct ChannelMatrix {
    pub in_ch: usize,
    pub out_ch: usize,
    /// Row by row: position `m * in_ch + n` is what input channel `n` adds to
    /// output channel `m`. Empty where the layouts are the same.
    pub coef: Vec<Level>,
    pub identity: bool,
}

/// The levels from one set of speakers to another, row by row.
pub open spec fn levels(from: Seq<u32>, to: Seq<u32>) -> Seq<Level> {
    Seq::new(
        to.len() * from.len(),
        |k: int| level_between(from[k % (from.len() as int)], to, to[k / (from.len() as int)]),
    )
}

/// What output channel `m` of one frame is made of: starting from silence, the
/// first `n` input channels of the frame are added one after the other, each
/// with its position in the matrix.
pub open spec fn gathers<T, F: Fn(T, usize, T) -> T>(
    mac: F,
    silence: T,
    frame: Seq<T>,
    row: int,
    n: int,
    value: T,
) -> bool
    decreases n,
{
    if n <= 0 {
        value == silence
    } else {
        exists|before: T|
            gathers(mac, silence, frame, row, n - 1, before) && #[trigger] call_ensures(
                mac,
                (before, (row + n - 1) as usize, frame[n - 1]),
                value,
            )
    }
}

/// How many whole frames fit in both buffers.
pub open spec fn frames_between(input: nat, in_ch: nat, output: nat, out_ch: nat) -> nat {
    let ins = input / (if in_ch == 0 { 1 } else { in_ch });
    let outs = output / (if out_ch == 0 { 1 } else { out_ch });
    if ins <= outs {
        ins
    } else {
        outs
    }
}

impl ChannelMatrix {
    /// The matrix has a level for each pair of channels, and fits in memory.
    pub open spec fn wf(&self) -> bool {
        !self.identity ==> self.coef@.len() == self.out_ch * self.in_ch
    }

    /// The matrix converts between these two layouts.
    pub open spec fn converts(&self, from: ChannelLayout, to: ChannelLayout) -> bool {
        &&& self.in_ch == speaker_count(from.0)
        &&& self.out_ch == speaker_count(to.0)
        &&& self.identity == (from.0 == to.0)
        &&& self.coef@ == if from.0 == to.0 {
            Seq::<Level>::empty()
        } else {
            levels(speakers_of(from), speakers_of(to))
        }
    }

    /// The conversion between two layouts. Every pair of layouts has one.
    pub fn new(from: ChannelLayout, to: ChannelLayout) -> (r: ChannelMatrix)
        ensures
            r.wf(),
            r.converts(from, to),
    {
        let in_ch = from.count() as usize;
        let out_ch = to.count() as usize;
        let mut coef: Vec<Level> = Vec::new();
        if from.0 == to.0 {
            return ChannelMatrix { in_ch, out_ch, coef, identity: true };
        }
        let ins = from.speakers();
        let outs = to.speakers();
        let mut folds: Vec<Vec<(u32, Level)>> = Vec::new();
        let mut c: usize = 0;
        while c < ins.len()
            invariant
                c <= ins.len(),
                folds.len() == c,
                forall|j: int| 0 <= j < c ==> (#[trigger] folds@[j])@ == folded(ins@[j], outs@),
            decreases ins.len() - c,
        {
            folds.push(fold_targets(ins[c], &outs));
            c = c + 1;
        }
        let mut m: usize = 0;
        while m < outs.len()
            invariant
                m <= outs.len(),
                folds.len() == ins.len(),
                forall|j: int| 0 <= j < ins.len() ==> (#[trigger] folds@[j])@ == folded(
                    ins@[j],
                    outs@,
                ),
                coef@.len() == m * ins.len(),
                forall|k: int|
                    0 <= k < coef@.len() ==> #[trigger] coef@[k] == level_between(
                        ins@[k % (ins@.len() as int)],
                        outs@,
                        outs@[k / (ins@.len() as int)],
                    ),
            decreases outs.len() - m,
        {
            let mut n: usize = 0;
            while n < ins.len()
                invariant
                    m < outs.len(),
                    n <= ins.len(),
                    folds.len() == ins.len(),
                    forall|j: int| 0 <= j < ins.len() ==> (#[trigger] folds@[j])@ == folded(
                        ins@[j],
                        outs@,
                    ),
                    coef@.len() == m * ins.len() + n,
                    forall|k: int|
                        0 <= k < coef@.len() ==> #[trigger] coef@[k] == level_between(
                            ins@[k % (ins@.len() as int)],
                            outs@,
                            outs@[k / (ins@.len() as int)],
                        ),
                decreases ins.len() - n,
            {
                let level = level_of(&folds[n], outs[m]);
                assert((m * ins@.len() + n) % (ins@.len() as int) == n && (m * ins@.len() + n) / (
                ins@.len() as int) == m) by {
                    vstd::arithmetic::div_mod::lemma_fundamental_div_mod_converse(
                        m * ins@.len() + n,
                        ins@.len() as int,
                        m as int,
                        n as int,
                    );
                }
                coef.push(level);
                n = n + 1;
            }
            assert(m * ins.len() + ins.len() == (m + 1) * ins.len()) by (nonlinear_arith);
            m = m + 1;
        }
        proof {
            assert(outs@.len() * ins@.len() == out_ch * in_ch);
            assert(coef@ =~= levels(ins@, outs@));
        }
        ChannelMatrix { in_ch, out_ch, coef, identity: false }
    }

    pub fn is_identity(&self) -> (r: bool)
        ensures
            r == self.identity,
    {
        self.identity
    }

    /// One output sample: input channel by input channel, added to silence.
    fn gather<T: Copy, F: Fn(T, usize, T) -> T>(
        &self,
        silence: T,
        mac: &F,
        input: &[T],
        frame: usize,
        m: usize,
    ) -> (r: T)
        requires
            self.wf(),
            !self.identity,
            m < self.out_ch,
            (frame + 1) * self.in_ch <= input@.len(),
            forall|a: T, k: usize, b: T| call_requires(*mac, (a, k, b)),
        ensures
            gathers(
                *mac,
                silence,
                input@.subrange(frame * self.in_ch, (frame + 1) * self.in_ch),
                m * self.in_ch,
                self.in_ch as int,
                r,
            ),
    {
        let ghost whole = input@.subrange(frame * self.in_ch, (frame + 1) * self.in_ch);
        assert((frame + 1) * self.in_ch == frame * self.in_ch + self.in_ch) by (nonlinear_arith);
        assert(m * self.in_ch + self.in_ch <= self.out_ch * self.in_ch) by (nonlinear_arith)
            requires
                m < self.out_ch,
        ;
        let cells: usize = self.coef.len();
        let total: usize = input.len();
        assert(m * self.in_ch <= cells);
        let row: usize = m * self.in_ch;
        let start: usize = frame * self.in_ch;
        let mut acc = silence;
        let mut n: usize = 0;
        while n < self.in_ch
            invariant
                self.wf(),
                !self.identity,
                n <= self.in_ch,
                row == m * self.in_ch,
                start == frame * self.in_ch,
                row + self.in_ch <= cells,
                start + self.in_ch <= total == input@.len(),
                whole == input@.subrange(start as int, start + self.in_ch),
                forall|a: T, k: usize, b: T| call_requires(*mac, (a, k, b)),
                gathers(*mac, silence, whole, row as int, n as int, acc),
            decreases self.in_ch - n,
        {
            let before = acc;
            acc = mac(before, row + n, input[start + n]);
            assert(whole[n as int] == input@[start + n]);
            n = n + 1;
            assert(gathers(*mac, silence, whole, row as int, n - 1, before) && call_ensures(
                *mac,
                (before, (row + n - 1) as usize, whole[n - 1]),
                acc,
            ));
        }
        acc
    }

    /// What a conversion makes of a buffer: so many samples are replaced by those
    /// of the input where the layouts are the same, and by whole frames of what
    /// each channel gathers elsewhere. The rest stays as it was.
    pub open spec fn converted<T, F: Fn(T, usize, T) -> T>(
        &self,
        mac: F,
        silence: T,
        input: Seq<T>,
        before: Seq<T>,
        written: nat,
        after: Seq<T>,
    ) -> bool {
        &&& after.len() == before.len()
        &&& forall|i: int| written <= i < before.len() ==> after[i] == before[i]
        &&& if self.identity {
            &&& written == if input.len() <= before.len() {
                input.len()
            } else {
                before.len()
            }
            &&& forall|i: int| 0 <= i < written ==> after[i] == input[i]
        } else {
            let frames = frames_between(
                input.len(),
                self.in_ch as nat,
                before.len(),
                self.out_ch as nat,
            );
            &&& written == frames * self.out_ch
            &&& forall|f: int, m: int|
                0 <= f < frames && 0 <= m < self.out_ch ==> gathers(
                    mac,
                    silence,
                    input.subrange(f * self.in_ch, (f + 1) * self.in_ch),
                    m * self.in_ch,
                    self.in_ch as int,
                    #[trigger] after[f * self.out_ch + m],
                )
        }
    }

    /// Converts whole frames of `input` into `output` and returns how many
    /// samples were written. Written samples are replaced, never added to, and
    /// the rest of `output` stays as it was. `mac` adds to its first argument
    /// the sample that is its third, at the level at its second.
    pub fn process<T: Copy, F: Fn(T, usize, T) -> T>(
        &self,
        silence: T,
        mac: &F,
        input: &[T],
        output: &mut Vec<T>,
    ) -> (r: usize)
        requires
            self.wf(),
            forall|a: T, k: usize, b: T| call_requires(*mac, (a, k, b)),
        ensures
            self.converted(*mac, silence, input@, old(output)@, r as nat, final(output)@),
    {
        if self.identity {
            let n: usize = if input.len() <= output.len() {
                input.len()
            } else {
                output.len()
            };
            let mut i: usize = 0;
            while i < n
                invariant
                    i <= n,
                    n <= input@.len(),
                    n <= output@.len(),
                    output@.len() == old(output)@.len(),
                    forall|k: int| 0 <= k < i ==> output@[k] == input@[k],
                    forall|k: int| i <= k < output@.len() ==> output@[k] == old(output)@[k],
                decreases n - i,
            {
                output[i] = input[i];
                i = i + 1;
            }
            return n;
        }
        let in_step: usize = if self.in_ch == 0 {
            1
        } else {
            self.in_ch
        };
        let out_step: usize = if self.out_ch == 0 {
            1
        } else {
            self.out_ch
        };
        let in_len: usize = input.len();
        let out_len: usize = output.len();
        let in_frames: usize = in_len / in_step;
        let out_frames: usize = out_len / out_step;
        let frames: usize = if in_frames <= out_frames {
            in_frames
        } else {
            out_frames
        };
        proof {
            vstd::arithmetic::div_mod::lemma_fundamental_div_mod(
                input@.len() as int,
                in_step as int,
            );
            vstd::arithmetic::div_mod::lemma_fundamental_div_mod(
                output@.len() as int,
                out_step as int,
            );
            assert(frames * self.in_ch <= in_step * in_frames) by (nonlinear_arith)
                requires
                    frames <= in_frames,
                    self.in_ch <= in_step,
            ;
            assert(frames * self.out_ch <= out_step * out_frames) by (nonlinear_arith)
                requires
                    frames <= out_frames,
                    self.out_ch <= out_step,
            ;
        }
        let mut f: usize = 0;
        while f < frames
            invariant
                self.wf(),
                !self.identity,
                f <= frames,
                frames * self.in_ch <= in_len == input@.len(),
                frames * self.out_ch <= out_len == output@.len(),
                output@.len() == old(output)@.len(),
                forall|a: T, k: usize, b: T| call_requires(*mac, (a, k, b)),
                forall|i: int|
                    f * self.out_ch <= i < output@.len() ==> output@[i] == old(output)@[i],
                forall|g: int, m: int|
                    0 <= g < f && 0 <= m < self.out_ch ==> gathers(
                        *mac,
                        silence,
                        input@.subrange(g * self.in_ch, (g + 1) * self.in_ch),
                        m * self.in_ch,
                        self.in_ch as int,
                        #[trigger] output@[g * self.out_ch + m],
                    ),
            decreases frames - f,
        {
            assert((f + 1) * self.in_ch <= frames * self.in_ch && (f + 1) * self.out_ch <= frames
                * self.out_ch && (f + 1) * self.out_ch == f * self.out_ch + self.out_ch)
                by (nonlinear_arith)
                requires
                    f < frames,
            ;
            let base: usize = f * self.out_ch;
            let mut m: usize = 0;
            while m < self.out_ch
                invariant
                    self.wf(),
                    !self.identity,
                    f < frames,
                    m <= self.out_ch,
                    base == f * self.out_ch,
                    base + self.out_ch <= out_len == output@.len(),
                    (f + 1) * self.in_ch <= input@.len(),
                    output@.len() == old(output)@.len(),
                    forall|a: T, k: usize, b: T| call_requires(*mac, (a, k, b)),
                    forall|i: int|
                        base + m <= i < output@.len() ==> output@[i] == old(output)@[i],
                    forall|g: int, j: int|
                        0 <= g < f && 0 <= j < self.out_ch ==> gathers(
                            *mac,
                            silence,
                            input@.subrange(g * self.in_ch, (g + 1) * self.in_ch),
                            j * self.in_ch,
                            self.in_ch as int,
                            #[trigger] output@[g * self.out_ch + j],
                        ),
                    forall|j: int|
                        0 <= j < m ==> gathers(
                            *mac,
                            silence,
                            input@.subrange(f * self.in_ch, (f + 1) * self.in_ch),
                            j * self.in_ch,
                            self.in_ch as int,
                            #[trigger] output@[f * self.out_ch + j],
                        ),
                decreases self.out_ch - m,
            {
                let value = self.gather(silence, mac, input, f, m);
                let ghost before = output@;
                output[base + m] = value;
                assert forall|g: int, j: int|
                    0 <= g < f && 0 <= j < self.out_ch implies gathers(
                    *mac,
                    silence,
                    input@.subrange(g * self.in_ch, (g + 1) * self.in_ch),
                    j * self.in_ch,
                    self.in_ch as int,
                    #[trigger] output@[g * self.out_ch + j],
                ) by {
                    assert(g * self.out_ch + j < f * self.out_ch && 0 <= g * self.out_ch)
                        by (nonlinear_arith)
                        requires
                            0 <= g < f,
                            0 <= j < self.out_ch,
                    ;
                    assert(before[g * self.out_ch + j] == output@[g * self.out_ch + j]);
                }
                m = m + 1;
            }
            f = f + 1;
        }
        frames * self.out_ch
    }
}

proof fn lemma_level_at(targets: Seq<(u32, Level)>, speaker: u32, from: int, at: int)
    requires
        0 <= from <= at < targets.len(),
        targets[at].0 == speaker,
        forall|i: int| from <= i < targets.len() ==> (#[trigger] targets[i]).1 != Level::Off,
    ensures
        level_from(targets, speaker, from) != Level::Off,
    decreases at - from,
{
    if targets[from].0 != speaker {
        lemma_level_at(targets, speaker, from + 1, at);
    }
}

/// Only the low-frequency channel is ever dropped: any other input speaker
/// reaches at least one speaker of an output that has any.
pub proof fn no_speaker_is_lost(spk: u32, out: Seq<u32>)
    requires
        spk != LFE,
        out.len() > 0,
    ensures
        exists|i: int| 0 <= i < out.len() && #[trigger] level_between(spk, out, out[i])
            != Level::Off,
{
    let targets = folded(spk, out);
    if targets == everywhere(out) {
        assert(targets[0].0 == out[0]);
        lemma_level_at(targets, out[0], 0, 0);
        assert(level_between(spk, out, out[0]) != Level::Off);
    } else {
        let at: int = if out.contains(targets[0].0) {
            0
        } else {
            1
        };
        assert(out.contains(targets[at].0));
        let i = choose|i: int| 0 <= i < out.len() && out[i] == targets[at].0;
        lemma_level_at(targets, out[i], 0, at);
        assert(level_between(spk, out, out[i]) != Level::Off);
    }
}

/// A named speaker that the output has too passes at unity into that speaker
/// and into no other.
pub proof fn shared_speakers_pass_through(spk: u32, out: Seq<u32>, to: u32)
    requires
        spk == FL || spk == FR || spk == FC || spk == LFE || spk == BL || spk == BR || spk == FLC
            || spk == FRC || spk == BC || spk == SL || spk == SR,
        out.contains(spk),
    ensures
        level_between(spk, out, to) == if to == spk {
            Level::Unity
        } else {
            Level::Off
        },
{
    reveal_with_fuel(level_from, 3);
    assert(folded(spk, out) == seq![(spk, Level::Unity)]);
}

proof fn lemma_level_of_pair(ins: Seq<u32>, outs: Seq<u32>, row: int, n: int)
    requires
        0 <= row < outs.len(),
        0 <= n < ins.len(),
    ensures
        0 <= row * ins.len() + n < levels(ins, outs).len(),
        levels(ins, outs)[row * ins.len() + n] == level_between(ins[n], outs, outs[row]),
{
    let width = ins.len() as int;
    let k = row * width + n;
    vstd::arithmetic::div_mod::lemma_fundamental_div_mod_converse(k, width, row, n);
    assert(0 <= k < outs.len() * width) by (nonlinear_arith)
        requires
            k == row * width + n,
            0 <= row < outs.len(),
            0 <= n < width,
    ;
}

/// A conversion drops the low-frequency channel and nothing else: every other
/// channel reaches some channel of an output that has any, and the low-frequency
/// channel none of an output without one.
pub proof fn only_low_frequencies_are_dropped(
    matrix: ChannelMatrix,
    from: ChannelLayout,
    to: ChannelLayout,
    n: int,
)
    requires
        matrix.converts(from, to),
        from.0 != to.0,
        matrix.out_ch > 0,
        0 <= n < matrix.in_ch,
    ensures
        speakers_of(from)[n] != LFE ==> exists|row: int|
            0 <= row < matrix.out_ch && matrix.coef@[#[trigger] (row * matrix.in_ch) + n]
                != Level::Off,
        speakers_of(from)[n] == LFE && !speakers_of(to).contains(LFE) ==> forall|row: int|
            0 <= row < matrix.out_ch ==> matrix.coef@[#[trigger] (row * matrix.in_ch) + n]
                == Level::Off,
{
    let ins = speakers_of(from);
    let outs = speakers_of(to);
    speakers_are_ascending(from.0);
    speakers_are_ascending(to.0);
    if ins[n] != LFE {
        no_speaker_is_lost(ins[n], outs);
        let row = choose|i: int|
            0 <= i < outs.len() && #[trigger] level_between(ins[n], outs, outs[i]) != Level::Off;
        lemma_level_of_pair(ins, outs, row, n);
        assert(matrix.coef@[(row * matrix.in_ch) + n] != Level::Off);
    } else if !outs.contains(LFE) {
        assert forall|row: int| 0 <= row < matrix.out_ch implies matrix.coef@[#[trigger] (row
            * matrix.in_ch) + n] == Level::Off by {
            lemma_level_of_pair(ins, outs, row, n);
        }
    }
}

/// What a channel is not to get is not in it: where every channel of a frame is
/// silent or off in a row, so is what the row gathers, as long as neither
/// silence nor a channel that is off adds anything.
pub proof fn what_is_off_is_not_heard<T, F: Fn(T, usize, T) -> T>(
    mac: F,
    silence: T,
    coef: Seq<Level>,
    frame: Seq<T>,
    row: int,
    n: int,
    value: T,
)
    requires
        gathers(mac, silence, frame, row, n, value),
        0 <= row,
        0 <= n,
        row + n <= usize::MAX,
        forall|a: T, k: usize, b: T, r: T|
            (coef[k as int] == Level::Off || b == silence) && #[trigger] call_ensures(
                mac,
                (a, k, b),
                r,
            ) ==> r == a,
        forall|c: int|
            0 <= c < n ==> (#[trigger] frame[c]) == silence || coef[row + c] == Level::Off,
    ensures
        value == silence,
    decreases n,
{
    if n > 0 {
        let before = choose|before: T|
            gathers(mac, silence, frame, row, n - 1, before) && #[trigger] call_ensures(
                mac,
                (before, (row + n - 1) as usize, frame[n - 1]),
                value,
            );
        what_is_off_is_not_heard(mac, silence, coef, frame, row, n - 1, before);
        assert(frame[n - 1] == silence || coef[row + (n - 1)] == Level::Off);
    }
}

/// What a channel is to get is in it: where one channel of a frame is not silent
/// and reaches a row, what the row gathers is not silent either, as long as
/// silence adds nothing and a sample at a level that is on adds something.
pub proof fn what_is_on_is_heard<T, F: Fn(T, usize, T) -> T>(
    mac: F,
    silence: T,
    coef: Seq<Level>,
    frame: Seq<T>,
    row: int,
    n: int,
    c: int,
    value: T,
)
    requires
        gathers(mac, silence, frame, row, n, value),
        0 <= row,
        0 <= c < n,
        row + n <= usize::MAX,
        forall|a: T, k: usize, b: T, r: T|
            b == silence && #[trigger] call_ensures(mac, (a, k, b), r) ==> r == a,
        forall|k: usize, b: T, r: T|
            coef[k as int] != Level::Off && b != silence && #[trigger] call_ensures(
                mac,
                (silence, k, b),
                r,
            ) ==> r != silence,
        forall|d: int| 0 <= d < n && d != c ==> (#[trigger] frame[d]) == silence,
        frame[c] != silence,
        coef[row + c] != Level::Off,
    ensures
        value != silence,
    decreases n,
{
    let before = choose|before: T|
        gathers(mac, silence, frame, row, n - 1, before) && #[trigger] call_ensures(
            mac,
            (before, (row + n - 1) as usize, frame[n - 1]),
            value,
        );
    if c == n - 1 {
        lemma_silent_so_far(mac, silence, frame, row, n - 1, before);
    } else {
        assert(frame[n - 1] == silence);
        what_is_on_is_heard(mac, silence, coef, frame, row, n - 1, c, before);
    }
}

proof fn lemma_silent_so_far<T, F: Fn(T, usize, T) -> T>(
    mac: F,
    silence: T,
    frame: Seq<T>,
    row: int,
    n: int,
    value: T,
)
    requires
        gathers(mac, silence, frame, row, n, value),
        forall|a: T, k: usize, b: T, r: T|
            b == silence && #[trigger] call_ensures(mac, (a, k, b), r) ==> r == a,
        forall|d: int| 0 <= d < n ==> (#[trigger] frame[d]) == silence,
    ensures
        value == silence,
    decreases n,
{
    if n > 0 {
        let before = choose|before: T|
            gathers(mac, silence, frame, row, n - 1, before) && #[trigger] call_ensures(
                mac,
                (before, (row + n - 1) as usize, frame[n - 1]),
                value,
            );
        lemma_silent_so_far(mac, silence, frame, row, n - 1, before);
        assert(frame[n - 1] == silence);
    }
}

/// A level as a number: 0, 1, or the square root of one half.
pub open spec fn level_number(level: Level) -> Float32 {
    match level {
        Level::Off => Float32 { bits: 0 },
        Level::Unity => Float32 { bits: 0x3f80_0000 },
        Level::Fold => Float32 { bits: 0x3f35_04f3 },
    }
}

fn number_of(level: Level) -> (r: Float32)
    ensures
        r == level_number(level),
{
    match level {
        Level::Off => Float32::from_bits(0),
        Level::Unity => Float32::from_bits(0x3f80_0000),
        Level::Fold => Float32::from_bits(0x3f35_04f3),
    }
}

/// The largest of the first `n` sums, or nothing.
pub open spec fn loudest(sums: Seq<Float32>, n: int) -> Float32
    decreases n,
{
    if n <= 0 {
        Float32 { bits: 0 }
    } else {
        let before = loudest(sums, n - 1);
        if before.less(sums[n - 1]) {
            sums[n - 1]
        } else {
            before
        }
    }
}

impl ChannelMatrix {
    /// The levels as numbers.
    pub open spec fn numbers(&self) -> Seq<Float32> {
        Seq::new(self.coef@.len(), |k: int| level_number(self.coef@[k]))
    }

    /// How many rows of levels there are.
    pub open spec fn row_count(&self) -> nat {
        if self.in_ch == 0 {
            0
        } else {
            self.coef@.len() / self.in_ch as nat
        }
    }

    /// Each of `sums` is the sum of a row.
    pub open spec fn sums_rows<F: Fn(Float32, Float32) -> Float32>(
        &self,
        plus: F,
        sums: Seq<Float32>,
    ) -> bool {
        forall|m: int|
            0 <= m < sums.len() ==> adds(
                plus,
                Float32 { bits: 0 },
                self.numbers().subrange(m * self.in_ch, (m + 1) * self.in_ch),
                #[trigger] sums[m],
            )
    }

    /// The factors of the matrix, where its rows have these sums: the levels, and
    /// divided by the loudest sum where that is above one.
    pub open spec fn divides_by<G: Fn(Float32, Float32) -> Float32>(
        &self,
        divide: G,
        sums: Seq<Float32>,
        factors: Seq<Float32>,
    ) -> bool {
        let loudest = loudest(sums, sums.len() as int);
        &&& factors.len() == self.coef@.len()
        &&& forall|k: int|
            0 <= k < factors.len() ==> if (Float32 { bits: 0x3f80_0000 }).less(loudest) {
                call_ensures(divide, (self.numbers()[k], loudest), #[trigger] factors[k])
            } else {
                factors[k] == self.numbers()[k]
            }
    }

    /// These can be the factors of the matrix.
    pub open spec fn balances<
        F: Fn(Float32, Float32) -> Float32,
        G: Fn(Float32, Float32) -> Float32,
    >(&self, plus: F, divide: G, factors: Seq<Float32>) -> bool {
        exists|sums: Seq<Float32>|
            {
                &&& sums.len() == self.row_count()
                &&& #[trigger] self.sums_rows(plus, sums)
                &&& self.divides_by(divide, sums, factors)
            }
    }

    /// The factors of the matrix. Where a row adds up to more than one, all
    /// levels are divided by the loudest sum: one divisor for the whole matrix
    /// keeps the balance between the channels.
    pub fn coefficients<
        F: Fn(Float32, Float32) -> Float32,
        G: Fn(Float32, Float32) -> Float32,
    >(&self, plus: &F, divide: &G) -> (r: Vec<Float32>)
        requires
            forall|a: Float32, b: Float32| call_requires(*plus, (a, b)),
            forall|a: Float32, b: Float32| call_requires(*divide, (a, b)),
        ensures
            self.balances(*plus, *divide, r@),
    {
        let ghost numbers = self.numbers();
        let len: usize = self.coef.len();
        let in_ch: usize = self.in_ch;
        let rows: usize = if in_ch == 0 {
            0
        } else {
            len / in_ch
        };
        proof {
            if in_ch > 0 {
                vstd::arithmetic::div_mod::lemma_fundamental_div_mod(len as int, in_ch as int);
                assert(rows * in_ch == in_ch * rows) by (nonlinear_arith);
            }
            assert(rows == 0 ==> rows * in_ch == 0) by (nonlinear_arith);
        }
        let mut top = Float32::from_bits(0);
        let ghost mut sums: Seq<Float32> = Seq::empty();
        let mut m: usize = 0;
        while m < rows
            invariant
                m <= rows,
                rows == self.row_count(),
                in_ch == self.in_ch,
                len == self.coef@.len(),
                numbers == self.numbers(),
                rows * in_ch <= len,
                forall|a: Float32, b: Float32| call_requires(*plus, (a, b)),
                sums.len() == m,
                top == loudest(sums, m as int),
                self.sums_rows(*plus, sums),
            decreases rows - m,
        {
            assert(m * in_ch + in_ch <= rows * in_ch && (m + 1) * in_ch == m * in_ch + in_ch)
                by (nonlinear_arith)
                requires
                    m < rows,
            ;
            let start: usize = m * in_ch;
            let ghost row = numbers.subrange(m * in_ch, (m + 1) * in_ch);
            let mut sum = Float32::from_bits(0);
            let mut n: usize = 0;
            assert(row.take(0) =~= Seq::empty());
            while n < in_ch
                invariant
                    n <= in_ch,
                    start + in_ch <= len == self.coef@.len(),
                    numbers == self.numbers(),
                    row == numbers.subrange(start as int, start + in_ch),
                    forall|a: Float32, b: Float32| call_requires(*plus, (a, b)),
                    adds(*plus, Float32 { bits: 0 }, row.take(n as int), sum),
                decreases in_ch - n,
            {
                let level = number_of(self.coef[start + n]);
                let next = plus(sum, level);
                n = n + 1;
                proof {
                    assert(row.take(n as int).drop_last() =~= row.take(n - 1));
                    assert(row.take(n as int).last() == level);
                    assert(call_ensures(*plus, (sum, row.take(n as int).last()), next));
                }
                sum = next;
            }
            assert(row.take(n as int) =~= row);
            let ghost before = sums;
            proof {
                sums = sums.push(sum);
                lemma_loudest_of_more(before, sums, m as int);
                assert forall|j: int| 0 <= j < sums.len() implies adds(
                    *plus,
                    Float32 { bits: 0 },
                    numbers.subrange(j * in_ch, (j + 1) * in_ch),
                    #[trigger] sums[j],
                ) by {
                    if j < m {
                        assert(sums[j] == before[j]);
                    }
                }
            }
            if top.is_less(sum) {
                top = sum;
            }
            m = m + 1;
        }
        let scale = Float32::from_bits(0x3f80_0000).is_less(top);
        let mut out: Vec<Float32> = Vec::new();
        let mut k: usize = 0;
        while k < len
            invariant
                k <= len == self.coef@.len(),
                numbers == self.numbers(),
                out@.len() == k,
                scale == (Float32 { bits: 0x3f80_0000 }).less(top),
                forall|a: Float32, b: Float32| call_requires(*divide, (a, b)),
                forall|j: int|
                    0 <= j < k ==> if scale {
                        call_ensures(*divide, (numbers[j], top), #[trigger] out@[j])
                    } else {
                        out@[j] == numbers[j]
                    },
            decreases len - k,
        {
            let level = number_of(self.coef[k]);
            assert(level == numbers[k as int]);
            let factor = if scale {
                divide(level, top)
            } else {
                level
            };
            out.push(factor);
            k = k + 1;
        }
        assert(self.sums_rows(*plus, sums));
        out
    }
}

proof fn lemma_loudest_of_more(a: Seq<Float32>, b: Seq<Float32>, n: int)
    requires
        n <= a.len(),
        n <= b.len(),
        forall|i: int| 0 <= i < n ==> a[i] == b[i],
    ensures
        loudest(a, n) == loudest(b, n),
    decreases n,
{
    if n > 0 {
        lemma_loudest_of_more(a, b, n - 1);
    }
}

/// A conversion keeps sides: what is on the left does not come out on the right,
/// and the other way round, wherever the output has a front speaker on each side.
pub proof fn a_conversion_keeps_sides(spk: u32, out: Seq<u32>, to: u32)
    requires
        out.contains(0x1u32),
        out.contains(0x2u32),
    ensures
        is_left(spk) && is_right(to) ==> level_between(spk, out, to) == Level::Off,
        is_right(spk) && is_left(to) ==> level_between(spk, out, to) == Level::Off,
{
    reveal_with_fuel(level_from, 4);
}

/// The output has both speakers of a pair or none of them.
pub open spec fn is_even(out: Seq<u32>) -> bool {
    forall|s: u32| #[trigger] out.contains(s) ==> out.contains(across(s))
}

proof fn lemma_everywhere(out: Seq<u32>, to: u32, from: int)
    requires
        0 <= from <= out.len(),
    ensures
        level_from(everywhere(out), to, from) == if out.skip(from).contains(to) {
            Level::Fold
        } else {
            Level::Off
        },
    decreases out.len() - from,
{
    if from < out.len() {
        lemma_everywhere(out, to, from + 1);
        let here = out.skip(from);
        let rest = out.skip(from + 1);
        if out[from] == to {
            assert(here[0] == to);
        } else if rest.contains(to) {
            let i = choose|i: int| 0 <= i < rest.len() && rest[i] == to;
            assert(here[i + 1] == to);
        } else if here.contains(to) {
            let i = choose|i: int| 0 <= i < here.len() && here[i] == to;
            assert(rest[i - 1] == to);
        }
    }
}

/// A conversion treats both sides alike: what a speaker gives to another one, the
/// speaker across from it gives to the one across from that.
pub proof fn a_conversion_treats_both_sides_alike(spk: u32, out: Seq<u32>, to: u32)
    requires
        is_even(out),
    ensures
        level_between(across(spk), out, across(to)) == level_between(spk, out, to),
{
    reveal_with_fuel(level_from, 4);
    assert(across(across(spk)) == spk && across(across(to)) == to);
    assert(out.contains(spk) == out.contains(across(spk))) by {
        if out.contains(across(spk)) {
            assert(out.contains(across(across(spk))));
        }
    }
    assert(out.contains(to) == out.contains(across(to))) by {
        if out.contains(across(to)) {
            assert(out.contains(across(across(to))));
        }
    }
    assert(out.contains(0x1u32) == out.contains(0x2u32)) by {
        assert(across(0x1) == 0x2 && across(0x2) == 0x1);
    }
    assert(out.contains(0x10u32) == out.contains(0x20u32)) by {
        assert(across(0x10) == 0x20 && across(0x20) == 0x10);
    }
    assert(out.contains(0x200u32) == out.contains(0x400u32)) by {
        assert(across(0x200) == 0x400 && across(0x400) == 0x200);
    }
    lemma_everywhere(out, to, 0);
    lemma_everywhere(out, across(to), 0);
    assert(out.skip(0) =~= out);
}

/// -3 dB, or nothing.
pub open spec fn fold_to(goes: bool) -> Level {
    if goes {
        Level::Fold
    } else {
        Level::Off
    }
}

/// Where a speaker goes that the output does not have: a surround speaker to the
/// front speaker of its side at -3 dB, one beside the center to that speaker as it
/// is, the center to both sides alike at -3 dB, and each to no other speaker.
pub proof fn a_missing_speaker_goes_to_its_neighbours(spk: u32, out: Seq<u32>, to: u32)
    requires
        out.contains(0x1u32),
        out.contains(0x2u32),
        !out.contains(spk),
    ensures
        spk == 0x10 || spk == 0x200 ==> level_between(spk, out, to) == fold_to(
            to == 0x1,
        ),
        spk == 0x20 || spk == 0x400 ==> level_between(spk, out, to) == fold_to(
            to == 0x2,
        ),
        spk == 0x40 ==> level_between(spk, out, to) == if to == 0x1 {
            Level::Unity
        } else {
            Level::Off
        },
        spk == 0x80 ==> level_between(spk, out, to) == if to == 0x2 {
            Level::Unity
        } else {
            Level::Off
        },
        spk == 0x4 ==> level_between(spk, out, to) == fold_to(
            to == 0x1 || to == 0x2,
        ),
        spk == 0x100 ==> (level_between(spk, out, to) == if out.contains(0x10u32) && out.contains(
            0x20u32,
        ) {
            fold_to(to == 0x10 || to == 0x20)
        } else if out.contains(0x200u32) && out.contains(0x400u32) {
            fold_to(to == 0x200 || to == 0x400)
        } else {
            fold_to(to == 0x1 || to == 0x2)
        }),
{
    reveal_with_fuel(level_from, 4);
}

/// The factors of a conversion are what its levels say: a shared speaker at one,
/// half the power where a signal is folded, and nothing where it is off.
pub proof fn levels_are_shares_of_the_power()
    ensures
        level_number(Level::Off).bits == 0,
        level_number(Level::Unity).significand() == pow2(23)
            && level_number(Level::Unity).doublings() == 126,
        level_number(Level::Fold).doublings() == 125,
        ({
            let fold = level_number(Level::Fold).significand();
            let one = 2 * level_number(Level::Unity).significand();
            one * one - 4 * one <= 2 * (fold * fold) <= one * one + 4 * one
        }),
{
    vstd::arithmetic::power2::lemma2_to64();
    assert(0x3f35_04f3int / 0x80_0000 == 126 && 0x3f35_04f3int % 0x80_0000 == 0x3504f3);
    assert(0x3f80_0000int / 0x80_0000 == 127 && 0x3f80_0000int % 0x80_0000 == 0);
    assert(2 * (0xb504f3int * 0xb504f3) <= 0x100_0000int * 0x100_0000 + 4 * 0x100_0000) by (nonlinear_arith);
    assert(0x100_0000int * 0x100_0000 - 4 * 0x100_0000 <= 2 * (0xb504f3int * 0xb504f3)) by (nonlinear_arith);
}

/// A channel that sounds alone goes where its speaker does: each channel of the
/// output gets it at the level between the two speakers, and nothing else.
pub proof fn one_channel_goes_where_its_speaker_does<T, F: Fn(T, usize, T) -> T>(
    matrix: ChannelMatrix,
    from: ChannelLayout,
    to: ChannelLayout,
    mac: F,
    silence: T,
    input: Seq<T>,
    before: Seq<T>,
    written: nat,
    after: Seq<T>,
    f: int,
    n: int,
    m: int,
)
    requires
        matrix.wf(),
        matrix.converts(from, to),
        from.0 != to.0,
        matrix.converted(mac, silence, input, before, written, after),
        forall|a: T, k: usize, r: T| #[trigger] call_ensures(mac, (a, k, silence), r) ==> r == a,
        0 <= n < matrix.in_ch,
        0 <= m < matrix.out_ch,
        0 <= f < frames_between(
            input.len(),
            matrix.in_ch as nat,
            before.len(),
            matrix.out_ch as nat,
        ),
        forall|d: int|
            0 <= d < matrix.in_ch && d != n ==> #[trigger] input.subrange(
                f * matrix.in_ch,
                (f + 1) * matrix.in_ch,
            )[d] == silence,
    ensures
        exists|k: usize|
            {
                &&& matrix.coef@[k as int] == level_between(
                    speakers_of(from)[n],
                    speakers_of(to),
                    speakers_of(to)[m],
                )
                &&& #[trigger] call_ensures(
                    mac,
                    (
                        silence,
                        k,
                        input.subrange(f * matrix.in_ch, (f + 1) * matrix.in_ch)[n],
                    ),
                    after[f * matrix.out_ch + m],
                )
            },
{
    let ins = speakers_of(from);
    let outs = speakers_of(to);
    speakers_are_ascending(from.0);
    speakers_are_ascending(to.0);
    lemma_level_of_pair(ins, outs, m, n);
    let frame = input.subrange(f * matrix.in_ch, (f + 1) * matrix.in_ch);
    let row = m * matrix.in_ch;
    let value = after[f * matrix.out_ch + m];
    assert(gathers(mac, silence, frame, row, matrix.in_ch as int, value));
    assert(row + n < matrix.coef@.len() <= usize::MAX) by {
        assert(matrix.coef.len() <= usize::MAX);
    }
    assert(row >= 0) by (nonlinear_arith)
        requires
            row == m * matrix.in_ch,
            m >= 0,
    ;
    lemma_gathered_alone(mac, silence, frame, row, matrix.in_ch as int, n, value);
}

proof fn lemma_gathered_alone<T, F: Fn(T, usize, T) -> T>(
    mac: F,
    silence: T,
    frame: Seq<T>,
    row: int,
    n: int,
    c: int,
    value: T,
)
    requires
        gathers(mac, silence, frame, row, n, value),
        forall|a: T, k: usize, r: T| #[trigger] call_ensures(mac, (a, k, silence), r) ==> r == a,
        0 <= c < n,
        forall|d: int| 0 <= d < n && d != c ==> #[trigger] frame[d] == silence,
    ensures
        call_ensures(mac, (silence, (row + c) as usize, frame[c]), value),
    decreases n,
{
    let before = choose|before: T|
        gathers(mac, silence, frame, row, n - 1, before) && #[trigger] call_ensures(
            mac,
            (before, (row + n - 1) as usize, frame[n - 1]),
            value,
        );
    if c == n - 1 {
        assert forall|a: T, k: usize, b: T, r: T|
            b == silence && #[trigger] call_ensures(mac, (a, k, b), r) implies r == a by {
        }
        lemma_silent_so_far(mac, silence, frame, row, n - 1, before);
        assert(row + n - 1 == row + c);
    } else {
        assert(frame[n - 1] == silence);
        lemma_gathered_alone(mac, silence, frame, row, n - 1, c, before);
    }
}

/// Where a speaker goes that has no neighbour in the output: a front speaker to
/// the center as it is, where there is one, and any other to every speaker at
/// -3 dB.
pub proof fn a_speaker_without_neighbours_is_heard_everywhere(spk: u32, out: Seq<u32>, to: u32)
    requires
        out.contains(to),
        !out.contains(spk),
    ensures
        (spk == 0x1 || spk == 0x2) && out.contains(0x4u32) ==> level_between(spk, out, to) == if to
            == 0x4 {
            Level::Unity
        } else {
            Level::Off
        },
        (spk == 0x1 || spk == 0x2) && !out.contains(0x4u32) ==> level_between(spk, out, to)
            == Level::Fold,
        (spk == 0x10 || spk == 0x200 || spk == 0x40) && !out.contains(0x1u32) ==> level_between(
            spk,
            out,
            to,
        ) == Level::Fold,
        (spk == 0x20 || spk == 0x400 || spk == 0x80) && !out.contains(0x2u32) ==> level_between(
            spk,
            out,
            to,
        ) == Level::Fold,
        spk == 0x4 && !out.contains(0x1u32) && !out.contains(0x2u32) ==> level_between(
            spk,
            out,
            to,
        ) == Level::Fold,
        spk > 0x400 ==> level_between(spk, out, to) == Level::Fold,
{
    reveal_with_fuel(level_from, 3);
    lemma_everywhere(out, to, 0);
    assert(out.skip(0) =~= out);
}

/// Nothing among the first `n` sums is above the loudest of them, and that is one
/// of them unless all are nothing.
proof fn lemma_loudest(sums: Seq<Float32>, n: int)
    requires
        0 <= n <= sums.len(),
        forall|i: int| 0 <= i < n ==> !(#[trigger] sums[i]).nan(),
    ensures
        !loudest(sums, n).nan(),
        forall|i: int| 0 <= i < n ==> (#[trigger] sums[i]).at_most(loudest(sums, n)),
        loudest(sums, n).bits == 0 || exists|i: int|
            0 <= i < n && #[trigger] sums[i] == loudest(sums, n),
    decreases n,
{
    if n > 0 {
        lemma_loudest(sums, n - 1);
    }
}

/// A conversion is scaled down no further than its loudest output needs: where no
/// row adds up to more than one the factors are the levels, and elsewhere they are
/// the levels divided by one sum that no other exceeds.
pub proof fn a_conversion_is_scaled_by_its_loudest_row<
    F: Fn(Float32, Float32) -> Float32,
    G: Fn(Float32, Float32) -> Float32,
>(matrix: ChannelMatrix, plus: F, divide: G, factors: Seq<Float32>) -> (sums: Seq<Float32>)
    requires
        matrix.balances(plus, divide, factors),
    ensures
        sums.len() == matrix.row_count(),
        matrix.sums_rows(plus, sums),
        (forall|m: int| 0 <= m < sums.len() ==> !(#[trigger] sums[m]).nan()) ==> {
            &&& (forall|m: int|
                0 <= m < sums.len() ==> (#[trigger] sums[m]).at_most(Float32 { bits: 0x3f80_0000 }))
                ==> factors == matrix.numbers()
            &&& (exists|m: int|
                0 <= m < sums.len() && (Float32 { bits: 0x3f80_0000 }).less(#[trigger] sums[m]))
                ==> exists|top: int|
                0 <= top < sums.len() && is_top(sums, #[trigger] sums[top]) && is_divided(
                    divide,
                    matrix.numbers(),
                    sums[top],
                    factors,
                )
        },
{
    let sums = choose|sums: Seq<Float32>|
        {
            &&& sums.len() == matrix.row_count()
            &&& #[trigger] matrix.sums_rows(plus, sums)
            &&& matrix.divides_by(divide, sums, factors)
        };
    let one = Float32 { bits: 0x3f80_0000 };
    if forall|m: int| 0 <= m < sums.len() ==> !(#[trigger] sums[m]).nan() {
        let n = sums.len() as int;
        lemma_loudest(sums, n);
        let most = loudest(sums, n);
        if one.less(most) {
            let top = choose|i: int| 0 <= i < n && #[trigger] sums[i] == most;
            assert(is_top(sums, sums[top]));
            assert(is_divided(divide, matrix.numbers(), sums[top], factors));
            assert(!sums[top].at_most(one));
        } else {
            assert(factors =~= matrix.numbers());
            assert forall|m: int| 0 <= m < n implies !one.less(#[trigger] sums[m]) by {
                assert(sums[m].at_most(most));
            }
        }
    }
    sums
}

/// No sum is above this one.
pub open spec fn is_top(sums: Seq<Float32>, top: Float32) -> bool {
    forall|m: int| 0 <= m < sums.len() ==> (#[trigger] sums[m]).at_most(top)
}

/// Each factor is its level, divided.
pub open spec fn is_divided<G: Fn(Float32, Float32) -> Float32>(
    divide: G,
    levels: Seq<Float32>,
    by: Float32,
    factors: Seq<Float32>,
) -> bool {
    factors.len() == levels.len() && forall|k: int|
        0 <= k < factors.len() ==> call_ensures(divide, (levels[k], by), #[trigger] factors[k])
}

} // verus!
