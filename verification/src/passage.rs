//! How audio passes through a mixer: in which order it is worked on, and that
//! nothing is lost or put in another order on the way.
use crate::convolve::rows;
use crate::desk::{Bus, Desk, Machine, Strip};
use crate::float::{Float32, Float64};
use crate::mixer::{GroupView, MixerView, OutputView};
use crate::model::DspStageView;
use crate::ramp::LEVEL_FLOOR_BITS;
use crate::resample::{
    fed, is_due, is_settled, least, ran, resamples, weaving_undoes_parting, Feed, Resampler,
};
use crate::sample::{DuckSpec, OutputId, ResampleRatio};
use crate::signal::{
    ducks, fades, filters, filters_upto, follows, limits, meters, meters_output, renders,
    stage_filters, Signal,
};
use crate::tick::{
    accepted_part, duck_step, ducked, feed_of, lemma_limited_outputs, limit_step, limited_upto,
    master_on, overlaid, passes_through, pushed, supplied, supply_path, tick_path, ticked,
    SupplyPath, TickPath,
};
use vstd::prelude::*;

verus! {

/// A resampler that hands back what it is given, on one line and at one ratio.
pub open spec fn hands_back<T, R: Resampler<T>>(line: usize, ratio: Float64) -> bool {
    forall|r: R, given: Vec<Vec<T>>, at: ResampleRatio, after: R, answer: Vec<Vec<T>>| #[trigger]
        call_ensures(R::resample, (r, line, given, at), (after, answer)) && at.deep_view() == ratio
            ==> rows(answer@) == rows(given@)
}

/// What stands at both ends of a resampler, in the order in which it was heard.
pub open spec fn in_order<T>(f: Feed<T>) -> Seq<T> {
    f.output + f.waiting + f.pending
}

proof fn lemma_fed_in_order<T>(f: Feed<T>, chunk: nat, input: Seq<T>, room: nat)
    requires
        f.consumed <= input.len(),
        f.pending.len() <= chunk,
        f.output.len() <= room,
    ensures
        ({
            let g = fed(f, chunk, input, room);
            &&& f.consumed <= g.consumed <= input.len()
            &&& in_order(g) == in_order(f) + input.subrange(f.consumed as int, g.consumed as int)
        }),
{
    let g = fed(f, chunk, input, room);
    let given = least(f.waiting.len() as int, room - f.output.len());
    assert(in_order(g) =~= in_order(f) + input.subrange(
        f.consumed as int,
        g.consumed as int,
    ));
}

/// A resampler loses nothing and keeps the order: one that hands back what it is
/// given delivers what went in, and what it has not delivered yet waits behind it.
pub proof fn what_goes_in_comes_out<T, R: Resampler<T>>(
    r: R,
    line: usize,
    channels: nat,
    ratio: Float64,
    chunk: nat,
    input: Seq<T>,
    room: nat,
    f: Feed<T>,
    after: R,
    end: Feed<T>,
)
    requires
        1 <= channels,
        1 <= chunk,
        chunk % channels == 0,
        is_settled(f, chunk, input, room),
        hands_back::<T, R>(line, ratio),
        ran(r, line, channels, ratio, chunk, input, room, f, after, end),
    ensures
        f.consumed <= end.consumed <= input.len(),
        in_order(end) == in_order(f) + input.subrange(f.consumed as int, end.consumed as int),
    decreases
            input.len() - f.consumed,
            if is_due(f, chunk, room) {
                1int
            } else {
                0
            },
{
    if is_due(f, chunk, room) {
        let next = choose|next: (R, Seq<T>)|
            #![trigger resamples(r, line, channels, f.pending, ratio, next.0, next.1)]
            resamples(r, line, channels, f.pending, ratio, next.0, next.1) && ran(
                next.0,
                line,
                channels,
                ratio,
                chunk,
                input,
                room,
                fed(
                    Feed {
                        pending: Seq::empty(),
                        waiting: next.1,
                        consumed: f.consumed,
                        output: f.output,
                    },
                    chunk,
                    input,
                    room,
                ),
                after,
                end,
            );
        weaving_undoes_parting(f.pending, channels);
        assert(next.1 == f.pending);
        let held = Feed {
            pending: Seq::<T>::empty(),
            waiting: next.1,
            consumed: f.consumed,
            output: f.output,
        };
        lemma_fed_in_order(held, chunk, input, room);
        let g = fed(held, chunk, input, room);
        what_goes_in_comes_out(
            next.0,
            line,
            channels,
            ratio,
            chunk,
            input,
            room,
            g,
            after,
            end,
        );
        assert(f.waiting =~= Seq::empty());
        assert(in_order(held) =~= in_order(f));
        assert(in_order(end) =~= in_order(f) + input.subrange(
            f.consumed as int,
            end.consumed as int,
        ));
    } else {
        assert(input.subrange(f.consumed as int, f.consumed as int) =~= Seq::empty());
        assert(in_order(end) =~= in_order(f) + Seq::empty());
    }
}

/// A group that needs no rendering is supplied with its own block, in order and
/// on its own line, at its own ratio.
pub proof fn a_group_is_supplied_in_order<T, S: Signal<T>>(
    s: S,
    g: GroupView<T>,
    i: int,
    idle_frames: usize,
    after: S,
    then: GroupView<T>,
) -> (taken: int)
    requires
        0 <= i <= usize::MAX,
        1 <= g.lanes,
        1 <= g.chunk,
        g.chunk % g.lanes == 0,
        g.pending.len() <= g.chunk,
        g.parked.len() <= g.parking,
        passes_through(g.render),
        hands_back::<T, S>(i as usize, g.ratio),
        supplied(s, g, i, idle_frames, false, after, then),
    ensures
        0 <= taken <= g.block.len(),
        then.parked + then.waiting + then.pending == g.parked + g.waiting + g.pending
            + g.block.take(taken),
{
    let p = choose|p: SupplyPath<T, S>| #[trigger]
        supply_path(p, s, g, i, idle_frames, false, after, then);
    let start = feed_of(g);
    lemma_fed_in_order(start, g.chunk, g.block, g.parking);
    let first = fed(start, g.chunk, g.block, g.parking);
    assert(is_settled(first, g.chunk, g.block, g.parking));
    what_goes_in_comes_out(
        p.rendered,
        i as usize,
        g.lanes,
        g.ratio,
        g.chunk,
        g.block,
        g.parking,
        first,
        after,
        p.end,
    );
    let taken = p.end.consumed as int;
    assert(in_order(p.end) =~= in_order(start) + g.block.take(taken));
    taken
}

/// All samples are of one kind.
pub open spec fn all_are<T>(samples: Seq<T>, kind: spec_fn(T) -> bool) -> bool {
    forall|k: int| 0 <= k < samples.len() ==> kind(#[trigger] samples[k])
}

/// A resampler that makes samples of one kind from samples of another, on one
/// line and at one ratio.
pub open spec fn turns<T, R: Resampler<T>>(
    line: usize,
    ratio: Float64,
    from: spec_fn(T) -> bool,
    to: spec_fn(T) -> bool,
) -> bool {
    forall|r: R, channels: nat, chunk: Seq<T>, after: R, out: Seq<T>| #[trigger]
        resamples(r, line, channels, chunk, ratio, after, out) && all_are(chunk, from) ==> all_are(
            out,
            to,
        )
}

proof fn lemma_turned<T, R: Resampler<T>>(
    r: R,
    line: usize,
    channels: nat,
    ratio: Float64,
    chunk: nat,
    input: Seq<T>,
    room: nat,
    f: Feed<T>,
    after: R,
    end: Feed<T>,
    from: spec_fn(T) -> bool,
    to: spec_fn(T) -> bool,
)
    requires
        1 <= chunk,
        is_settled(f, chunk, input, room),
        turns::<T, R>(line, ratio, from, to),
        ran(r, line, channels, ratio, chunk, input, room, f, after, end),
        all_are(input, from),
        all_are(f.pending, from),
        all_are(f.waiting, to),
        all_are(f.output, to),
    ensures
        all_are(end.pending, from),
        all_are(end.waiting, to),
        all_are(end.output, to),
    decreases
            input.len() - f.consumed,
            if is_due(f, chunk, room) {
                1int
            } else {
                0
            },
{
    if is_due(f, chunk, room) {
        let next = choose|next: (R, Seq<T>)|
            #![trigger resamples(r, line, channels, f.pending, ratio, next.0, next.1)]
            resamples(r, line, channels, f.pending, ratio, next.0, next.1) && ran(
                next.0,
                line,
                channels,
                ratio,
                chunk,
                input,
                room,
                fed(
                    Feed {
                        pending: Seq::empty(),
                        waiting: next.1,
                        consumed: f.consumed,
                        output: f.output,
                    },
                    chunk,
                    input,
                    room,
                ),
                after,
                end,
            );
        let held = Feed {
            pending: Seq::<T>::empty(),
            waiting: next.1,
            consumed: f.consumed,
            output: f.output,
        };
        lemma_fed_kinds(held, chunk, input, room, from, to);
        lemma_turned(
            next.0,
            line,
            channels,
            ratio,
            chunk,
            input,
            room,
            fed(held, chunk, input, room),
            after,
            end,
            from,
            to,
        );
    }
}

proof fn lemma_fed_kinds<T>(
    f: Feed<T>,
    chunk: nat,
    input: Seq<T>,
    room: nat,
    from: spec_fn(T) -> bool,
    to: spec_fn(T) -> bool,
)
    requires
        f.consumed <= input.len(),
        f.pending.len() <= chunk,
        f.output.len() <= room,
        all_are(input, from),
        all_are(f.pending, from),
        all_are(f.waiting, to),
        all_are(f.output, to),
    ensures
        ({
            let g = fed(f, chunk, input, room);
            all_are(g.pending, from) && all_are(g.waiting, to) && all_are(g.output, to)
        }),
{
    let g = fed(f, chunk, input, room);
    assert forall|k: int| 0 <= k < g.pending.len() implies from(#[trigger] g.pending[k]) by {
        if k < f.pending.len() {
            assert(from(f.pending[k]));
        } else {
            assert(from(input[f.consumed + (k - f.pending.len())]));
        }
    }
    let given = least(f.waiting.len() as int, room - f.output.len());
    assert forall|k: int| 0 <= k < g.waiting.len() implies to(#[trigger] g.waiting[k]) by {
        assert(to(f.waiting[given + k]));
    }
    assert forall|k: int| 0 <= k < g.output.len() implies to(#[trigger] g.output[k]) by {
        if k < f.output.len() {
            assert(to(f.output[k]));
        } else {
            assert(to(f.waiting[k - f.output.len()]));
        }
    }
}

/// A block is rendered into the channels of its output first and resampled then:
/// what a group parks is what the resampler makes, at the group's ratio, of what
/// the group's rendering makes of its block.
pub proof fn a_block_is_rendered_then_resampled<T, S: Signal<T>>(
    s: S,
    g: GroupView<T>,
    i: int,
    idle_frames: usize,
    silent: bool,
    after: S,
    then: GroupView<T>,
    rendered: spec_fn(T) -> bool,
    resampled: spec_fn(T) -> bool,
)
    requires
        0 <= i <= usize::MAX,
        1 <= g.chunk,
        g.pending.len() <= g.chunk,
        g.parked.len() <= g.parking,
        !passes_through(g.render),
        forall|t: S, u: S, out: Seq<T>| #[trigger]
            renders(t, i as usize, g.render, g.block, u, out) ==> all_are(out, rendered),
        turns::<T, S>(i as usize, g.ratio, rendered, resampled),
        all_are(g.pending, rendered),
        all_are(g.waiting, resampled),
        all_are(g.parked, resampled),
        supplied(s, g, i, idle_frames, silent, after, then),
    ensures
        all_are(then.pending, rendered),
        all_are(then.waiting, resampled),
        all_are(then.parked, resampled),
{
    let p = choose|p: SupplyPath<T, S>| #[trigger]
        supply_path(p, s, g, i, idle_frames, silent, after, then);
    let start = feed_of(g);
    lemma_fed_kinds(start, g.chunk, p.input, g.parking, rendered, resampled);
    let first = fed(start, g.chunk, p.input, g.parking);
    assert(is_settled(first, g.chunk, p.input, g.parking));
    lemma_turned(
        p.rendered,
        i as usize,
        g.lanes,
        g.ratio,
        g.chunk,
        p.input,
        g.parking,
        first,
        after,
        p.end,
        rendered,
        resampled,
    );
}

/// A block has its gain on it before it goes through the stages of its group.
pub proof fn the_gain_comes_before_the_stages<T, S: Signal<T>>(
    s: S,
    before: MixerView<T>,
    max_block_frames: nat,
    i: int,
    frames: Seq<T>,
    after: S,
    then: MixerView<T>,
    faded: spec_fn(Seq<T>) -> bool,
    filtered: spec_fn(Seq<T>) -> bool,
)
    requires
        0 <= i < before.groups.len() <= usize::MAX,
        before.groups[i].chain.len() >= 1,
        pushed(s, before, max_block_frames, i, frames, after, then),
        forall|t: S, u: S, out: Seq<T>| #[trigger]
            fades(
                t,
                i as usize,
                before.groups[i].gain,
                master_on(before.groups[i]),
                accepted_part(frames, before.groups[i].channels, max_block_frames),
                u,
                out,
            ) ==> faded(out),
        forall|t: S, stage: usize, config: DspStageView, block: Seq<T>, u: S, out: Seq<T>|
            (faded(block) || filtered(block)) && #[trigger] stage_filters(
                t,
                i as usize,
                stage,
                config,
                block,
                u,
                out,
            ) ==> filtered(out),
    ensures
        filtered(then.groups[i].block),
{
    let g = before.groups[i];
    let block = then.groups[i].block;
    let mid = choose|mid: (S, Seq<T>)|
        #![trigger filters(mid.0, i as usize, g.chain, mid.1, after, block)]
        fades(
            s,
            i as usize,
            g.gain,
            master_on(g),
            accepted_part(frames, g.channels, max_block_frames),
            mid.0,
            mid.1,
        ) && filters(mid.0, i as usize, g.chain, mid.1, after, block);
    lemma_filtered(
        mid.0,
        i as usize,
        g.chain,
        mid.1,
        g.chain.len() as int,
        after,
        block,
        faded,
        filtered,
    );
}

proof fn lemma_filtered<T, S: Signal<T>>(
    s: S,
    group: usize,
    chain: Seq<DspStageView>,
    block: Seq<T>,
    n: int,
    after: S,
    out: Seq<T>,
    faded: spec_fn(Seq<T>) -> bool,
    filtered: spec_fn(Seq<T>) -> bool,
)
    requires
        filters_upto(s, group, chain, block, n, after, out),
        faded(block),
        0 <= n,
        forall|t: S, stage: usize, config: DspStageView, block: Seq<T>, u: S, out: Seq<T>|
            (faded(block) || filtered(block)) && #[trigger] stage_filters(
                t,
                group,
                stage,
                config,
                block,
                u,
                out,
            ) ==> filtered(out),
    ensures
        n == 0 ==> faded(out),
        n > 0 ==> filtered(out),
    decreases n,
{
    if n > 0 {
        let mid = choose|mid: (S, Seq<T>)|
            #![trigger stage_filters(mid.0, group, (n - 1) as usize, chain[n - 1], mid.1, after, out)]
            filters_upto(s, group, chain, block, n - 1, mid.0, mid.1) && stage_filters(
                mid.0,
                group,
                (n - 1) as usize,
                chain[n - 1],
                mid.1,
                after,
                out,
            );
        lemma_filtered(s, group, chain, block, n - 1, mid.0, mid.1, faded, filtered);
    }
}

/// Every group is ducked by its own settings and in its own block, and a group
/// without ducking keeps its block.
pub proof fn each_group_is_ducked_by_itself<T, S: Signal<T>>(
    s: S,
    groups: Seq<GroupView<T>>,
    n: int,
    after: S,
    blocks: Seq<Seq<T>>,
    i: int,
    kind: spec_fn(Seq<T>) -> bool,
)
    requires
        0 <= n <= groups.len() <= usize::MAX,
        0 <= i < groups.len(),
        ducked(s, groups, n, after, blocks),
        groups[i].duck matches Some(duck) ==> forall|t: S, reduced: bool, u: S, out: Seq<T>|
            #[trigger] ducks(t, i as usize, duck, reduced, groups[i].block, u, out) ==> kind(out),
    ensures
        blocks.len() == groups.len(),
        groups[i].duck is None || i >= n ==> blocks[i] == groups[i].block,
        groups[i].duck is Some && i < n ==> kind(blocks[i]),
    decreases n,
{
    if n > 0 {
        let mid = choose|mid: (S, Seq<Seq<T>>)|
            #![trigger duck_step(mid.0, groups, n - 1, mid.1, after, blocks)]
            ducked(s, groups, n - 1, mid.0, mid.1) && duck_step(
                mid.0,
                groups,
                n - 1,
                mid.1,
                after,
                blocks,
            );
        each_group_is_ducked_by_itself(s, groups, n - 1, mid.0, mid.1, i, kind);
    }
}

/// What an output hands over went through its limiter, whatever it was summed of.
pub proof fn every_output_is_limited<T, S: Signal<T>, F: Fn(T, T) -> T>(
    s: S,
    plus: F,
    before: MixerView<T>,
    idle_frames: usize,
    blocked: Seq<OutputId>,
    after: S,
    then: MixerView<T>,
    o: int,
    kind: spec_fn(T) -> bool,
    k: int,
)
    requires
        before.outputs.len() <= usize::MAX,
        ticked(s, plus, before, idle_frames, blocked, after, then),
        0 <= o < before.outputs.len(),
        forall|t: S, block: Seq<T>, u: S, out: Seq<T>| #[trigger]
            limits(t, o as usize, block, u, out) ==> out.len() == block.len() && all_are(
                out,
                kind,
            ),
        0 <= k < then.outputs[o].filled,
        then.outputs[o].filled <= then.outputs[o].accum.len(),
    ensures
        kind(then.outputs[o].accum[k]),
{
    let p = choose|p: TickPath<T, S>| #[trigger]
        tick_path(p, s, plus, before, idle_frames, blocked, after, then);
    let n = before.outputs.len() as int;
    lemma_limited_outputs(p.supplied, p.emitted, idle_frames, n, after, then.outputs, o);
    lemma_limited_kind(p.supplied, p.emitted, idle_frames, n, after, then.outputs, o, kind, k);
}

proof fn lemma_limited_kind<T, S: Signal<T>>(
    s: S,
    outputs: Seq<OutputView<T>>,
    idle_frames: usize,
    n: int,
    after: S,
    then: Seq<OutputView<T>>,
    o: int,
    kind: spec_fn(T) -> bool,
    k: int,
)
    requires
        limited_upto(s, outputs, idle_frames, n, after, then),
        0 <= n <= outputs.len() <= usize::MAX,
        0 <= o < outputs.len(),
        0 <= k < outputs[o].filled <= outputs[o].accum.len(),
        forall|t: S, block: Seq<T>, u: S, out: Seq<T>| #[trigger]
            limits(t, o as usize, block, u, out) ==> out.len() == block.len() && all_are(
                out,
                kind,
            ),
    ensures
        o < n ==> kind(then[o].accum[k]),
    decreases n,
{
    if n > 0 {
        let mid = choose|mid: (S, Seq<OutputView<T>>)|
            #![trigger limit_step(mid.0, mid.1, n - 1, idle_frames, after, then)]
            limited_upto(s, outputs, idle_frames, n - 1, mid.0, mid.1) && limit_step(
                mid.0,
                mid.1,
                n - 1,
                idle_frames,
                after,
                then,
            );
        lemma_limited_kind(s, outputs, idle_frames, n - 1, mid.0, mid.1, o, kind, k);
        lemma_limited_outputs(s, outputs, idle_frames, n - 1, mid.0, mid.1, o);
        let out = mid.1[n - 1];
        let step = choose|step: (S, Seq<T>)|
            #![trigger limits(mid.0, (n - 1) as usize, out.accum.take(out.filled as int), step.0, step.1)]
            {
                &&& limits(
                    mid.0,
                    (n - 1) as usize,
                    out.accum.take(out.filled as int),
                    step.0,
                    step.1,
                )
                &&& then == mid.1.update(
                    n - 1,
                    OutputView {
                        accum: overlaid(out.accum, step.1, out.filled as int),
                        ..out
                    },
                )
            };
        if o == n - 1 {
            assert(kind(step.1[k]));
        }
    }
}

/// A block goes through the stages of its group in the order that they stand in: each
/// hears what the one before it made, under its own configuration, and the last one's
/// result is the group's.
pub proof fn stages_follow_one_another<T, S: Signal<T>>(
    s: S,
    group: usize,
    chain: Seq<DspStageView>,
    block: Seq<T>,
    n: int,
    after: S,
    out: Seq<T>,
    made: spec_fn(int, Seq<T>) -> bool,
)
    requires
        0 <= n <= chain.len() <= usize::MAX,
        filters_upto(s, group, chain, block, n, after, out),
        made(0, block),
        forall|t: S, stage: usize, heard: Seq<T>, u: S, then: Seq<T>|
            stage < chain.len() && made(stage as int, heard) && #[trigger] stage_filters(
                t,
                group,
                stage,
                chain[stage as int],
                heard,
                u,
                then,
            ) ==> made(stage + 1, then),
    ensures
        made(n, out),
    decreases n,
{
    if n > 0 {
        let mid = choose|mid: (S, Seq<T>)|
            #![trigger stage_filters(mid.0, group, (n - 1) as usize, chain[n - 1], mid.1, after, out)]
            filters_upto(s, group, chain, block, n - 1, mid.0, mid.1) && stage_filters(
                mid.0,
                group,
                (n - 1) as usize,
                chain[n - 1],
                mid.1,
                after,
                out,
            );
        stages_follow_one_another(s, group, chain, block, n - 1, mid.0, mid.1, made);
        let stage = (n - 1) as usize;
        assert(stage as int == n - 1);
        assert(stage_filters(mid.0, group, stage, chain[stage as int], mid.1, after, out));
    }
}

/// Every group has a strip of its own: what is done to a group moves the strip of
/// that group, the one part of it that it is about, and nothing else on the desk.
pub proof fn a_group_moves_its_own_strip<M: Machine>(
    desk: Desk<M>,
    group: usize,
    gain: Float32,
    master: Option<Float32>,
    stage: usize,
    config: DspStageView,
    duck: DuckSpec,
    reduced: bool,
    idle_frames: usize,
    block: Seq<Float32>,
    after: Desk<M>,
    out: Seq<Float32>,
    other: int,
)
    requires
        ({
            ||| fades(desk, group, gain, master, block, after, out)
            ||| stage_filters(desk, group, stage, config, block, after, out)
            ||| follows(desk, group, block, after)
            ||| ducks(desk, group, duck, reduced, block, after, out)
            ||| meters(desk, group, block, idle_frames, after)
        }),
    ensures
        after.machine == desk.machine,
        after.buses == desk.buses,
        after.strips@.len() == desk.strips@.len(),
        0 <= other < desk.strips@.len() && other != group ==> after.strips@[other]
            == desk.strips@[other],
        group < desk.strips@.len() ==> {
            let was = desk.strips@[group as int];
            let is = after.strips@[group as int];
            ||| is == (Strip { fader: is.fader, ..was })
            ||| is == (Strip { rack: is.rack, ..was })
            ||| is == (Strip { follower: is.follower, level_db: is.level_db, ..was })
            ||| is == (Strip { duck: is.duck, ..was })
            ||| is == (Strip { meter: is.meter, ..was })
        },
{
}

/// Every output has a bus of its own: what is done to an output moves the limiter or
/// the meter of that output, and nothing else on the desk.
pub proof fn an_output_moves_its_own_bus<M: Machine>(
    desk: Desk<M>,
    output: usize,
    idle_frames: usize,
    block: Seq<Float32>,
    after: Desk<M>,
    out: Seq<Float32>,
    other: int,
)
    requires
        limits(desk, output, block, after, out) || meters_output(
            desk,
            output,
            block,
            idle_frames,
            after,
        ),
    ensures
        after.machine == desk.machine,
        after.strips == desk.strips,
        after.buses@.len() == desk.buses@.len(),
        0 <= other < desk.buses@.len() && other != output ==> after.buses@[other]
            == desk.buses@[other],
        output < desk.buses@.len() ==> {
            let was = desk.buses@[output as int];
            let is = after.buses@[output as int];
            ||| is == (Bus { limiter: is.limiter, ..was })
            ||| is == (Bus { meter: is.meter, ..was })
        },
{
}

/// The level of a group is measured where it is heard: after a block it is what its
/// follower found, in decibels, and a group whose level was not followed keeps it.
pub proof fn a_level_is_in_decibels<M: Machine>(
    desk: Desk<M>,
    group: usize,
    block: Seq<Float32>,
    after: Desk<M>,
)
    requires
        follows(desk, group, block, after),
        desk.has_strip(group as int),
        (Float32 { bits: LEVEL_FLOOR_BITS }).less(after.strips@[group as int].follower.env),
    ensures
        call_ensures(
            M::decibels,
            (&desk.machine, after.strips@[group as int].follower.env),
            after.strips@[group as int].level_db,
        ),
{
}

} // verus!
