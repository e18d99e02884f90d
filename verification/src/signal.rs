//! What is computed on the samples of a mixer, and what it can answer.
//!
//! The mixer decides what is handed to which computation, in which order, and
//! what becomes of the answers. It knows the computations only through the
//! trait here: each takes the state of the arithmetic and hands it back.
use crate::chain::DspChain;
use crate::float::Float32;
use crate::mixer::Render;
use crate::model::{DspStageConfig, DspStageView};
use crate::resample::Resampler;
use crate::sample::{DuckSpec, Gain};
use vstd::prelude::*;

verus! {

/// The arithmetic of a mixer, group by group and output by output. Groups and
/// outputs are named by their positions in it. Each computation hands back the
/// arithmetic as it is afterwards.
pub trait Signal<T>: Resampler<T> {
    /// The block with the gain of a group on it, and the master's where the
    /// group follows it.
    fn fade(self, group: usize, gain: Gain, master: Option<Gain>, block: Vec<T>) -> (Self, Vec<T>);

    /// The block after one stage of a group's chain.
    fn filter(self, group: usize, stage: usize, config: &DspStageConfig, block: Vec<T>) -> (
        Self,
        Vec<T>,
    );

    /// Lets the level of a group follow a block.
    fn follow(self, group: usize, block: &Vec<T>) -> Self;

    /// Whether the level of a group is above a threshold.
    fn is_above(&self, group: usize, threshold_db: Float32) -> bool;

    /// The block with the ducking of a group on it: on its way down where
    /// `reduced`, on its way back up elsewhere.
    fn duck(self, group: usize, duck: DuckSpec, reduced: bool, block: Vec<T>) -> (Self, Vec<T>);

    /// Shows a block on the meter of a group. An empty one counts as so many
    /// frames of silence.
    fn meter(self, group: usize, block: &Vec<T>, idle_frames: usize) -> Self;

    /// The block of a group in the channels of its output.
    fn render(self, group: usize, render: &Render, block: &Vec<T>) -> (Self, Vec<T>);

    /// What an output plays, kept below full scale.
    fn limit(self, output: usize, block: Vec<T>) -> (Self, Vec<T>);

    /// Shows what an output plays on its meter. An empty block counts as so
    /// many frames of silence.
    fn meter_output(self, output: usize, block: &Vec<T>, idle_frames: usize) -> Self;
}

/// [`Signal::fade`] can answer with `out`.
pub open spec fn fades<T, S: Signal<T>>(
    s: S,
    group: usize,
    gain: Float32,
    master: Option<Float32>,
    block: Seq<T>,
    after: S,
    out: Seq<T>,
) -> bool {
    exists|asked: (Gain, Option<Gain>, Vec<T>), answer: Vec<T>|
        #![trigger call_ensures(S::fade, (s, group, asked.0, asked.1, asked.2), (after, answer))]
        asked.0.deep_view() == gain && asked.1.deep_view() == master && asked.2@ == block
            && answer@ == out && call_ensures(
            S::fade,
            (s, group, asked.0, asked.1, asked.2),
            (after, answer),
        )
}

/// [`Signal::filter`] can answer with `out`.
pub open spec fn stage_filters<T, S: Signal<T>>(
    s: S,
    group: usize,
    stage: usize,
    config: DspStageView,
    block: Seq<T>,
    after: S,
    out: Seq<T>,
) -> bool {
    exists|asked: (DspStageConfig, Vec<T>), answer: Vec<T>|
        #![trigger call_ensures(S::filter, (s, group, stage, &asked.0, asked.1), (after, answer))]
        asked.0.deep_view() == config && asked.1@ == block && answer@ == out && call_ensures(
            S::filter,
            (s, group, stage, &asked.0, asked.1),
            (after, answer),
        )
}

/// The first `n` stages of a chain can make `out` of a block, each of what the
/// one before it made.
pub open spec fn filters_upto<T, S: Signal<T>>(
    s: S,
    group: usize,
    chain: Seq<DspStageView>,
    block: Seq<T>,
    n: int,
    after: S,
    out: Seq<T>,
) -> bool
    decreases n,
{
    if n <= 0 {
        after == s && out == block
    } else {
        exists|mid: (S, Seq<T>)|
            #![trigger stage_filters(mid.0, group, (n - 1) as usize, chain[n - 1], mid.1, after, out)]
            filters_upto(s, group, chain, block, n - 1, mid.0, mid.1) && stage_filters(
                mid.0,
                group,
                (n - 1) as usize,
                chain[n - 1],
                mid.1,
                after,
                out,
            )
    }
}

/// The stages of a chain can make `out` of a block.
pub open spec fn filters<T, S: Signal<T>>(
    s: S,
    group: usize,
    chain: Seq<DspStageView>,
    block: Seq<T>,
    after: S,
    out: Seq<T>,
) -> bool {
    filters_upto(s, group, chain, block, chain.len() as int, after, out)
}

impl DspChain {
    /// Lets a block of a group pass the stages, in order.
    pub fn process<T, S: Signal<T>>(&self, signal: S, group: usize, block: Vec<T>) -> (r: (
        S,
        Vec<T>,
    ))
        ensures
            filters(signal, group, self.deep_view(), block@, r.0, r.1@),
    {
        let ghost first = signal;
        let ghost start = block@;
        let ghost chain = self.deep_view();
        let mut signal = signal;
        let mut block = block;
        let mut i: usize = 0;
        while i < self.stages.len()
            invariant
                i <= self.stages@.len(),
                chain == self.deep_view(),
                filters_upto(first, group, chain, start, i as int, signal, block@),
            decreases self.stages@.len() - i,
        {
            let ghost mid = (signal, block@);
            let ghost asked = (self.stages@[i as int], block);
            let (next, answer) = signal.filter(group, i, &self.stages[i], block);
            assert(call_ensures(
                S::filter,
                (mid.0, group, i, &asked.0, asked.1),
                (next, answer),
            ));
            signal = next;
            block = answer;
            i = i + 1;
            assert(stage_filters(
                mid.0,
                group,
                (i - 1) as usize,
                chain[i - 1],
                mid.1,
                signal,
                block@,
            ));
        }
        (signal, block)
    }
}

/// A chain without stages changes nothing.
pub proof fn an_empty_chain_passes_all<T, S: Signal<T>>(
    s: S,
    group: usize,
    block: Seq<T>,
    after: S,
    out: Seq<T>,
)
    requires
        filters(s, group, Seq::<DspStageView>::empty(), block, after, out),
    ensures
        after == s,
        out == block,
{
}

/// [`Signal::follow`] can leave the arithmetic like `after`.
pub open spec fn follows<T, S: Signal<T>>(s: S, group: usize, block: Seq<T>, after: S) -> bool {
    exists|asked: Vec<T>|
        asked@ == block && #[trigger] call_ensures(S::follow, (s, group, &asked), after)
}

/// [`Signal::is_above`] can answer with `above`.
pub open spec fn tells<T, S: Signal<T>>(s: S, group: usize, threshold_db: Float32, above: bool) -> bool {
    call_ensures(S::is_above, (&s, group, threshold_db), above)
}

/// [`Signal::duck`] can answer with `out`.
pub open spec fn ducks<T, S: Signal<T>>(
    s: S,
    group: usize,
    duck: DuckSpec,
    reduced: bool,
    block: Seq<T>,
    after: S,
    out: Seq<T>,
) -> bool {
    exists|asked: Vec<T>, answer: Vec<T>|
        asked@ == block && answer@ == out && #[trigger] call_ensures(
            S::duck,
            (s, group, duck, reduced, asked),
            (after, answer),
        )
}

/// [`Signal::meter`] can leave the arithmetic like `after`.
pub open spec fn meters<T, S: Signal<T>>(
    s: S,
    group: usize,
    block: Seq<T>,
    idle_frames: usize,
    after: S,
) -> bool {
    exists|asked: Vec<T>|
        asked@ == block && #[trigger] call_ensures(
            S::meter,
            (s, group, &asked, idle_frames),
            after,
        )
}

/// [`Signal::render`] can answer with `out`.
pub open spec fn renders<T, S: Signal<T>>(
    s: S,
    group: usize,
    render: Render,
    block: Seq<T>,
    after: S,
    out: Seq<T>,
) -> bool {
    exists|asked: Vec<T>, answer: Vec<T>|
        asked@ == block && answer@ == out && #[trigger] call_ensures(
            S::render,
            (s, group, &render, &asked),
            (after, answer),
        )
}

/// [`Signal::limit`] can answer with `out`.
pub open spec fn limits<T, S: Signal<T>>(
    s: S,
    output: usize,
    block: Seq<T>,
    after: S,
    out: Seq<T>,
) -> bool {
    exists|asked: Vec<T>, answer: Vec<T>|
        asked@ == block && answer@ == out && #[trigger] call_ensures(
            S::limit,
            (s, output, asked),
            (after, answer),
        )
}

/// [`Signal::meter_output`] can leave the arithmetic like `after`.
pub open spec fn meters_output<T, S: Signal<T>>(
    s: S,
    output: usize,
    block: Seq<T>,
    idle_frames: usize,
    after: S,
) -> bool {
    exists|asked: Vec<T>|
        asked@ == block && #[trigger] call_ensures(
            S::meter_output,
            (s, output, &asked, idle_frames),
            after,
        )
}

} // verus!
