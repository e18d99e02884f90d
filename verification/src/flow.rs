//! What holds of a mixer over pushes, ticks and takes together.
use crate::command::CommandView;
use crate::float::Float32;
use crate::mixer::{
    any_solo, group_at, groups_after, GroupView, MixerView, OutputView,
};
use crate::resample::{fed, is_due, ran, resamples, Feed, Resampler};
use crate::sample::{GroupId, OutputId};
use crate::signal::{ducks, follows, meters, Signal};
use crate::span::{
    adds, advance_of, advanced, after_span, drained, least_parked, parking_full, share,
    span_of, terms_at,
};
use crate::tick::{
    a_blocked_output_parks_everything, a_blocked_output_plays_nothing,
    an_independent_group_ignores_the_master, blocks_of, duck_step, duck_trigger, ducked, feed_of,
    followed, lemma_drained_settings, lemma_limited_outputs, lemma_supplied_groups,
    parked_audio_leaves_in_order, pushed, quiet_in, silent_now, supplied_upto, supply_path,
    supply_step, taken, tick_path, ticked, told_to_duck, with_blocks, SupplyPath, TickPath,
};
use vstd::prelude::*;

verus! {

/// An output with nothing in it.
pub open spec fn rests<T>(out: OutputView<T>, silence: T) -> bool {
    &&& out.filled == 0
    &&& forall|s: int| 0 <= s < out.accum.len() ==> #[trigger] out.accum[s] == silence
}

/// An output with nothing in it but what it has to hand over.
pub open spec fn settled<T>(out: OutputView<T>, silence: T) -> bool {
    forall|s: int| out.filled <= s < out.accum.len() ==> #[trigger] out.accum[s] == silence
}

/// Every tick sums from silence: an output that has nothing in it before a tick
/// has nothing behind what it hands over after it, and once that was taken it
/// has nothing in it again, whether all of it fitted or not.
pub proof fn every_tick_sums_from_silence<T, S: Signal<T>, F: Fn(T, T) -> T>(
    s: S,
    plus: F,
    before: MixerView<T>,
    idle_frames: usize,
    blocked: Seq<OutputId>,
    after: S,
    then: MixerView<T>,
    o: int,
    silence: T,
)
    requires
        ticked(s, plus, before, idle_frames, blocked, after, then),
        0 <= o < before.outputs.len(),
        rests(before.outputs[o], silence),
    ensures
        settled(then.outputs[o], silence),
        rests(taken(then.outputs[o], silence), silence),
{
    let quiet = quiet_in(before);
    let p = choose|p: TickPath<T, S>| #[trigger]
        tick_path(p, s, plus, before, idle_frames, blocked, after, then);
    lemma_limited_outputs(
        p.supplied,
        p.emitted,
        idle_frames,
        before.outputs.len() as int,
        after,
        then.outputs,
        o,
    );
    assert(advanced(
        plus,
        drained(p.supply, quiet, before.outputs, blocked, o),
        quiet,
        before.outputs[o],
        blocked,
        p.emitted[o],
    ));
    let out = then.outputs[o];
    assert forall|k: int| out.filled <= k < out.accum.len() implies #[trigger] out.accum[k]
        == silence by {
        assert(p.emitted[o].accum[k] == before.outputs[o].accum[k]);
        assert(before.outputs[o].accum[k] == silence);
    }
}

proof fn lemma_ran_extends<T, R: Resampler<T>>(
    r: R,
    line: usize,
    channels: nat,
    ratio: crate::float::Float64,
    chunk: nat,
    input: Seq<T>,
    room: nat,
    f: Feed<T>,
    after: R,
    end: Feed<T>,
)
    requires
        ran(r, line, channels, ratio, chunk, input, room, f, after, end),
    ensures
        f.output.is_prefix_of(end.output),
    decreases
            input.len() - f.consumed,
            if is_due(f, chunk, room) {
                1int
            } else {
                0
            },
{
    if chunk >= 1 && f.consumed <= input.len() && is_due(f, chunk, room) {
        let next = choose|next: (R, Seq<T>)|
            #![trigger resamples(r, line, channels, f.pending, ratio, next.0, next.1)]
            resamples(r, line, channels, f.pending, ratio, next.0, next.1) && ran(
                next.0,
                line,
                channels,
                ratio,
                chunk,
                input,
                room,
                fed(
                    Feed {
                        pending: Seq::empty(),
                        waiting: next.1,
                        consumed: f.consumed,
                        output: f.output,
                    },
                    chunk,
                    input,
                    room,
                ),
                after,
                end,
            );
        let g = fed(
            Feed {
                pending: Seq::empty(),
                waiting: next.1,
                consumed: f.consumed,
                output: f.output,
            },
            chunk,
            input,
            room,
        );
        lemma_ran_extends(next.0, line, channels, ratio, chunk, input, room, g, after, end);
        assert(f.output.is_prefix_of(g.output));
        lemma_prefix_of_prefix(f.output, g.output, end.output);
    }
}

proof fn lemma_prefix_of_prefix<T>(a: Seq<T>, b: Seq<T>, c: Seq<T>)
    requires
        a.is_prefix_of(b),
        b.is_prefix_of(c),
    ensures
        a.is_prefix_of(c),
{
    assert(a =~= c.subrange(0, a.len() as int)) by {
        assert forall|i: int| 0 <= i < a.len() implies a[i] == c[i] by {
            assert(a[i] == b.subrange(0, a.len() as int)[i]);
            assert(b[i] == c.subrange(0, b.len() as int)[i]);
        }
    }
}

/// A group that can be heard only ever adds to what it has parked before its
/// output advances.
proof fn lemma_supply_extends<T, S: Signal<T>>(
    s: S,
    m: MixerView<T>,
    groups: Seq<GroupView<T>>,
    idle_frames: usize,
    n: int,
    after: S,
    then: Seq<GroupView<T>>,
    i: int,
)
    requires
        n <= groups.len(),
        supplied_upto(s, m, groups, idle_frames, n, after, then),
        0 <= i < groups.len(),
        !silent_now(m, i),
    ensures
        then.len() == groups.len(),
        groups[i].parked.is_prefix_of(then[i].parked),
        i >= n ==> then[i] == groups[i],
    decreases n,
{
    if n > 0 {
        let mid = choose|mid: (S, Seq<GroupView<T>>)|
            #![trigger supply_step(mid.0, mid.1, n - 1, idle_frames, silent_now(m, n - 1), after, then)]
            supplied_upto(s, m, groups, idle_frames, n - 1, mid.0, mid.1) && supply_step(
                mid.0,
                mid.1,
                n - 1,
                idle_frames,
                silent_now(m, n - 1),
                after,
                then,
            );
        lemma_supply_extends(s, m, groups, idle_frames, n - 1, mid.0, mid.1, i);
        if i == n - 1 {
            let g = mid.1[i];
            let p = choose|p: SupplyPath<T, S>| #[trigger]
                supply_path(p, mid.0, g, i, idle_frames, false, after, then[i]);
            let f = fed(feed_of(g), g.chunk, p.input, g.parking);
            lemma_ran_extends(
                p.rendered,
                i as usize,
                g.lanes,
                g.ratio,
                g.chunk,
                p.input,
                g.parking,
                f,
                after,
                p.end,
            );
            assert(g.parked.is_prefix_of(f.output));
            lemma_prefix_of_prefix(g.parked, f.output, p.end.output);
        }
    }
}

/// What a group has parked waits for its output: on a tick on which the output
/// is blocked, nothing of it is handed over, and all of it is still there, in
/// order, with what came in behind it.
pub proof fn a_blocked_tick_keeps_what_is_parked<T, S: Signal<T>, F: Fn(T, T) -> T>(
    s: S,
    plus: F,
    before: MixerView<T>,
    idle_frames: usize,
    blocked: Seq<OutputId>,
    after: S,
    then: MixerView<T>,
    i: int,
)
    requires
        ticked(s, plus, before, idle_frames, blocked, after, then),
        0 <= i < before.groups.len(),
        blocked.contains(before.groups[i].output),
        !silent_now(before, i),
    ensures
        before.groups[i].parked.is_prefix_of(then.groups[i].parked),
        forall|o: int|
            0 <= o < before.outputs.len() && (#[trigger] before.outputs[o]).id
                == before.groups[i].output ==> then.outputs[o].filled == 0,
{
    let quiet = quiet_in(before);
    let p = choose|p: TickPath<T, S>| #[trigger]
        tick_path(p, s, plus, before, idle_frames, blocked, after, then);
    let groups = with_blocks(before.groups, p.blocks);
    let n = before.groups.len() as int;
    lemma_supply_extends(p.ducked, before, groups, idle_frames, n, p.supplied, p.supply, i);
    lemma_supplied_groups(p.ducked, before, groups, idle_frames, n, p.supplied, p.supply, i);
    a_blocked_output_parks_everything(
        p.supply,
        quiet,
        before.outputs,
        blocked,
        before.outputs.len() as int,
        i,
    );
    assert forall|o: int|
        0 <= o < before.outputs.len() && (#[trigger] before.outputs[o]).id
            == before.groups[i].output implies then.outputs[o].filled == 0 by {
        a_blocked_output_plays_nothing(
            s,
            plus,
            before,
            idle_frames,
            blocked,
            after,
            then,
            o,
        );
    }
}

/// One step of a mixer on which the output of group `i` stands still: a block is
/// pushed into some group, or a tick passes on which the output is blocked.
pub open spec fn waits<T, S: Signal<T>, F: Fn(T, T) -> T>(
    s: S,
    plus: F,
    before: MixerView<T>,
    max_block_frames: usize,
    blocked: Seq<OutputId>,
    after: S,
    then: MixerView<T>,
    i: int,
) -> bool {
    ||| blocked.contains(before.groups[i].output) && !silent_now(before, i) && ticked(
        s,
        plus,
        before,
        max_block_frames,
        blocked,
        after,
        then,
    )
    ||| exists|j: int, frames: Seq<T>|
        0 <= j < before.groups.len() && #[trigger] pushed(
            s,
            before,
            max_block_frames as nat,
            j,
            frames,
            after,
            then,
        )
}

/// However long its output is blocked, what a group had parked when it began is
/// held, neither dropped nor altered: it is the beginning of what is parked when
/// it ends.
pub proof fn parked_audio_outlasts_a_block<T, S: Signal<T>, F: Fn(T, T) -> T>(
    signals: Seq<S>,
    plus: F,
    run: Seq<MixerView<T>>,
    max_block_frames: usize,
    blocked: Seq<Seq<OutputId>>,
    i: int,
)
    requires
        run.len() > 0,
        signals.len() == run.len(),
        0 <= i < run[0].groups.len(),
        forall|n: int|
            0 <= n < run.len() - 1 ==> #[trigger] waits(
                signals[n],
                plus,
                run[n],
                max_block_frames,
                blocked[n],
                signals[n + 1],
                run[n + 1],
                i,
            ),
    ensures
        run.last().groups.len() == run[0].groups.len(),
        run.last().groups[i].output == run[0].groups[i].output,
        run[0].groups[i].parked.is_prefix_of(run.last().groups[i].parked),
    decreases run.len(),
{
    let n = run.len() - 1;
    if n == 0 {
        assert(run[0].groups[i].parked =~= run[0].groups[i].parked.subrange(
            0,
            run[0].groups[i].parked.len() as int,
        ));
    } else {
        let shorter = run.drop_last();
        assert forall|k: int| 0 <= k < shorter.len() - 1 implies #[trigger] waits(
            signals.drop_last()[k],
            plus,
            shorter[k],
            max_block_frames,
            blocked[k],
            signals.drop_last()[k + 1],
            shorter[k + 1],
            i,
        ) by {
            assert(waits(
                signals[k],
                plus,
                run[k],
                max_block_frames,
                blocked[k],
                signals[k + 1],
                run[k + 1],
                i,
            ));
        }
        parked_audio_outlasts_a_block(
            signals.drop_last(),
            plus,
            shorter,
            max_block_frames,
            blocked,
            i,
        );
        let before = run[n - 1];
        let then = run[n];
        assert(waits(
            signals[n - 1],
            plus,
            run[n - 1],
            max_block_frames,
            blocked[n - 1],
            signals[n - 1 + 1],
            run[n - 1 + 1],
            i,
        ));
        if exists|j: int, frames: Seq<T>|
            0 <= j < before.groups.len() && #[trigger] pushed(
                signals[n - 1],
                before,
                max_block_frames as nat,
                j,
                frames,
                signals[n],
                then,
            ) {
            assert(then.groups[i].parked == before.groups[i].parked);
        } else {
            let idle = max_block_frames;
            a_blocked_tick_keeps_what_is_parked(
                signals[n - 1],
                plus,
                before,
                idle,
                blocked[n - 1],
                signals[n],
                then,
                i,
            );
            lemma_tick_keeps_groups(
                signals[n - 1],
                plus,
                before,
                idle,
                blocked[n - 1],
                signals[n],
                then,
                i,
            );
            lemma_prefix_of_prefix(
                run[0].groups[i].parked,
                before.groups[i].parked,
                then.groups[i].parked,
            );
        }
    }
}

proof fn lemma_tick_keeps_groups<T, S: Signal<T>, F: Fn(T, T) -> T>(
    s: S,
    plus: F,
    before: MixerView<T>,
    idle_frames: usize,
    blocked: Seq<OutputId>,
    after: S,
    then: MixerView<T>,
    i: int,
)
    requires
        ticked(s, plus, before, idle_frames, blocked, after, then),
        0 <= i < before.groups.len(),
    ensures
        then.groups.len() == before.groups.len(),
        then.groups[i].output == before.groups[i].output,
{
    let quiet = quiet_in(before);
    let p = choose|p: TickPath<T, S>| #[trigger]
        tick_path(p, s, plus, before, idle_frames, blocked, after, then);
    let groups = with_blocks(before.groups, p.blocks);
    let n = before.groups.len() as int;
    lemma_supplied_groups(p.ducked, before, groups, idle_frames, n, p.supplied, p.supply, i);
    lemma_drained_settings(
        p.supply,
        quiet,
        before.outputs,
        blocked,
        before.outputs.len() as int,
        i,
    );
}

/// What a group has parked comes out in order, from the front: on any tick on
/// which it can be heard, what it has afterwards is what it had, with what came
/// in behind it, less what its output was handed.
pub proof fn parked_audio_comes_out_in_order<T, S: Signal<T>, F: Fn(T, T) -> T>(
    s: S,
    plus: F,
    before: MixerView<T>,
    idle_frames: usize,
    blocked: Seq<OutputId>,
    after: S,
    then: MixerView<T>,
    i: int,
)
    requires
        ticked(s, plus, before, idle_frames, blocked, after, then),
        0 <= i < before.groups.len(),
        !silent_now(before, i),
    ensures
        exists|supply: Seq<T>, k: int|
            before.groups[i].parked.is_prefix_of(supply) && 0 <= k <= supply.len()
                && then.groups[i].parked == #[trigger] supply.skip(k),
{
    let quiet = quiet_in(before);
    let p = choose|p: TickPath<T, S>| #[trigger]
        tick_path(p, s, plus, before, idle_frames, blocked, after, then);
    let groups = with_blocks(before.groups, p.blocks);
    let n = before.groups.len() as int;
    lemma_supply_extends(p.ducked, before, groups, idle_frames, n, p.supplied, p.supply, i);
    parked_audio_leaves_in_order(
        p.supply,
        quiet,
        before.outputs,
        blocked,
        before.outputs.len() as int,
        i,
    );
    let supply = p.supply[i].parked;
    let k = choose|k: int|
        0 <= k <= supply.len() && drained(
            p.supply,
            quiet,
            before.outputs,
            blocked,
            before.outputs.len() as int,
        )[i] == (GroupView { parked: #[trigger] supply.skip(k), ..p.supply[i] });
    assert(then.groups[i].parked == supply.skip(k));
}

/// What the first `n` groups that can be heard put into position `s` of a span.
pub open spec fn heard_at<T>(
    groups: Seq<GroupView<T>>,
    quiet: Seq<bool>,
    id: OutputId,
    span: nat,
    s: int,
    n: int,
) -> Seq<T>
    decreases n,
{
    if n <= 0 {
        Seq::empty()
    } else {
        let before = heard_at(groups, quiet, id, span, s, n - 1);
        if !quiet[n - 1] && s < share(groups[n - 1], id, span) {
            before.push(groups[n - 1].parked[s])
        } else {
            before
        }
    }
}

proof fn lemma_heard<T>(
    groups: Seq<GroupView<T>>,
    quiet: Seq<bool>,
    id: OutputId,
    span: nat,
    s: int,
    n: int,
)
    requires
        0 <= s,
        n <= groups.len(),
        forall|i: int| 0 <= i < groups.len() && quiet[i] ==> (#[trigger] groups[i]).parked.len() == 0,
    ensures
        heard_at(groups, quiet, id, span, s, n) == terms_at(groups, id, span, s, n),
    decreases n,
{
    if n > 0 {
        lemma_heard(groups, quiet, id, span, s, n - 1);
        assert(quiet[n - 1] ==> groups[n - 1].parked.len() == 0);
    }
}

/// The meter of group `i` is told of the block of the group, once the groups
/// before it are supplied.
pub open spec fn is_metered<T, S: Signal<T>>(
    s: S,
    m: MixerView<T>,
    groups: Seq<GroupView<T>>,
    idle_frames: usize,
    i: int,
) -> bool {
    exists|from: (S, Seq<GroupView<T>>), to: S|
        supplied_upto(s, m, groups, idle_frames, i, from.0, from.1) && #[trigger] meters(
            from.0,
            i as usize,
            groups[i].block,
            idle_frames,
            to,
        )
}

proof fn lemma_metered<T, S: Signal<T>>(
    s: S,
    m: MixerView<T>,
    groups: Seq<GroupView<T>>,
    idle_frames: usize,
    n: int,
    after: S,
    then: Seq<GroupView<T>>,
    i: int,
)
    requires
        n <= groups.len(),
        supplied_upto(s, m, groups, idle_frames, n, after, then),
        0 <= i < groups.len(),
    ensures
        then.len() == groups.len(),
        i >= n ==> then[i] == groups[i],
        i < n ==> is_metered(s, m, groups, idle_frames, i),
    decreases n,
{
    if n > 0 {
        let mid = choose|mid: (S, Seq<GroupView<T>>)|
            #![trigger supply_step(mid.0, mid.1, n - 1, idle_frames, silent_now(m, n - 1), after, then)]
            supplied_upto(s, m, groups, idle_frames, n - 1, mid.0, mid.1) && supply_step(
                mid.0,
                mid.1,
                n - 1,
                idle_frames,
                silent_now(m, n - 1),
                after,
                then,
            );
        lemma_metered(s, m, groups, idle_frames, n - 1, mid.0, mid.1, i);
        if i == n - 1 {
            let p = choose|p: SupplyPath<T, S>| #[trigger]
                supply_path(
                    p,
                    mid.0,
                    mid.1[i],
                    i,
                    idle_frames,
                    silent_now(m, n - 1),
                    after,
                    then[i],
                );
            assert(meters(mid.0, i as usize, groups[i].block, idle_frames, p.metered));
        }
    }
}

/// An output is the sum of the groups that can be heard on it, and of no others:
/// from what it held before, the samples of each of them are added one after the
/// other, and then limited. The meter of every group goes on, silent or not.
pub proof fn an_output_is_what_can_be_heard<T, S: Signal<T>, F: Fn(T, T) -> T>(
    s: S,
    plus: F,
    before: MixerView<T>,
    idle_frames: usize,
    blocked: Seq<OutputId>,
    after: S,
    then: MixerView<T>,
    o: int,
)
    requires
        ticked(s, plus, before, idle_frames, blocked, after, then),
        0 <= o < before.outputs.len(),
        !blocked.contains(before.outputs[o].id),
    ensures
        exists|p: TickPath<T, S>|
            {
                let quiet = quiet_in(before);
                let at = drained(p.supply, quiet, before.outputs, blocked, o);
                let span = span_of(at, quiet, before.outputs[o]);
                &&& #[trigger] tick_path(p, s, plus, before, idle_frames, blocked, after, then)
                &&& forall|k: int|
                    0 <= k < span ==> adds(
                        plus,
                        before.outputs[o].accum[k],
                        heard_at(at, quiet, before.outputs[o].id, span, k, at.len() as int),
                        #[trigger] p.emitted[o].accum[k],
                    )
                &&& forall|i: int|
                    0 <= i < before.groups.len() ==> #[trigger] is_metered(
                        p.ducked,
                        before,
                        with_blocks(before.groups, p.blocks),
                        idle_frames,
                        i,
                    )
            },
{
    let quiet = quiet_in(before);
    let p = choose|p: TickPath<T, S>| #[trigger]
        tick_path(p, s, plus, before, idle_frames, blocked, after, then);
    let groups = with_blocks(before.groups, p.blocks);
    let n = before.groups.len() as int;
    let at = drained(p.supply, quiet, before.outputs, blocked, o);
    let id = before.outputs[o].id;
    let span = span_of(at, quiet, before.outputs[o]);
    lemma_drained_len(p.supply, quiet, before.outputs, blocked, o);
    lemma_supply_len(p.ducked, before, groups, idle_frames, n, p.supplied, p.supply);
    assert forall|i: int| 0 <= i < at.len() && quiet[i] implies (#[trigger] at[i]).parked.len()
        == 0 by {
        lemma_supplied_groups(p.ducked, before, groups, idle_frames, n, p.supplied, p.supply, i);
        lemma_drained_settings(p.supply, quiet, before.outputs, blocked, o, i);
    }
    assert(advanced(plus, at, quiet, before.outputs[o], blocked, p.emitted[o]));
    assert forall|k: int| 0 <= k < span implies adds(
        plus,
        before.outputs[o].accum[k],
        heard_at(at, quiet, id, span, k, at.len() as int),
        #[trigger] p.emitted[o].accum[k],
    ) by {
        lemma_heard(at, quiet, id, span, k, at.len() as int);
    }
    assert forall|i: int| 0 <= i < n implies #[trigger] is_metered(
        p.ducked,
        before,
        groups,
        idle_frames,
        i,
    ) by {
        lemma_metered(p.ducked, before, groups, idle_frames, n, p.supplied, p.supply, i);
    }
}

proof fn lemma_drained_len<T>(
    groups: Seq<GroupView<T>>,
    quiet: Seq<bool>,
    outputs: Seq<OutputView<T>>,
    blocked: Seq<OutputId>,
    n: int,
)
    ensures
        drained(groups, quiet, outputs, blocked, n).len() == groups.len(),
    decreases n,
{
    if n > 0 {
        lemma_drained_len(groups, quiet, outputs, blocked, n - 1);
    }
}

proof fn lemma_supply_len<T, S: Signal<T>>(
    s: S,
    m: MixerView<T>,
    groups: Seq<GroupView<T>>,
    idle_frames: usize,
    n: int,
    after: S,
    then: Seq<GroupView<T>>,
)
    requires
        n <= groups.len(),
        supplied_upto(s, m, groups, idle_frames, n, after, then),
    ensures
        then.len() == groups.len(),
    decreases n,
{
    if n > 0 {
        let mid = choose|mid: (S, Seq<GroupView<T>>)|
            #![trigger supply_step(mid.0, mid.1, n - 1, idle_frames, silent_now(m, n - 1), after, then)]
            supplied_upto(s, m, groups, idle_frames, n - 1, mid.0, mid.1) && supply_step(
                mid.0,
                mid.1,
                n - 1,
                idle_frames,
                silent_now(m, n - 1),
                after,
                then,
            );
        lemma_supply_len(s, m, groups, idle_frames, n - 1, mid.0, mid.1);
    }
}

/// The groups with the master elsewhere.
pub open spec fn remastered<T>(groups: Seq<GroupView<T>>, master: Float32) -> Seq<GroupView<T>> {
    groups_after(groups, CommandView::SetMaster(master))
}

/// The mixer with the master elsewhere.
pub open spec fn mixer_remastered<T>(m: MixerView<T>, master: Float32) -> MixerView<T> {
    MixerView { groups: remastered(m.groups, master), ..m }
}

proof fn lemma_followed_remastered<T, S: Signal<T>>(
    s: S,
    groups: Seq<GroupView<T>>,
    master: Float32,
    n: int,
    after: S,
)
    requires
        n <= groups.len(),
        followed(s, groups, n, after),
    ensures
        followed(s, remastered(groups, master), n, after),
    decreases n,
{
    if n > 0 {
        let mid = choose|mid: S|
            followed(s, groups, n - 1, mid) && #[trigger] follows(
                mid,
                (n - 1) as usize,
                groups[n - 1].block,
                after,
            );
        lemma_followed_remastered(s, groups, master, n - 1, mid);
        assert(follows(mid, (n - 1) as usize, remastered(groups, master)[n - 1].block, after));
    }
}

proof fn lemma_group_at_remastered<T>(
    groups: Seq<GroupView<T>>,
    master: Float32,
    id: GroupId,
    from: int,
)
    requires
        0 <= from,
    ensures
        group_at(remastered(groups, master), id, from) == group_at(groups, id, from),
        group_at(groups, id, from) matches Some(i) ==> 0 <= i < groups.len(),
    decreases groups.len() - from,
{
    if from < groups.len() {
        lemma_group_at_remastered(groups, master, id, from + 1);
    }
}

proof fn lemma_solo_remastered<T>(groups: Seq<GroupView<T>>, master: Float32)
    ensures
        any_solo(remastered(groups, master)) == any_solo(groups),
{
    let other = remastered(groups, master);
    if any_solo(groups) {
        let k = choose|k: int| 0 <= k < groups.len() && (#[trigger] groups[k]).solo;
        assert(other[k].solo);
    }
    if any_solo(other) {
        let k = choose|k: int| 0 <= k < other.len() && (#[trigger] other[k]).solo;
        assert(groups[k].solo);
    }
}

proof fn lemma_trigger_remastered<T>(groups: Seq<GroupView<T>>, master: Float32, i: int)
    requires
        0 <= i < groups.len(),
    ensures
        duck_trigger(remastered(groups, master), i) == duck_trigger(groups, i),
{
    lemma_solo_remastered(groups, master);
    match groups[i].duck {
        Some(duck) => lemma_group_at_remastered(groups, master, duck.trigger, 0),
        None => {},
    }
}

proof fn lemma_ducked_remastered<T, S: Signal<T>>(
    s: S,
    groups: Seq<GroupView<T>>,
    master: Float32,
    n: int,
    after: S,
    blocks: Seq<Seq<T>>,
)
    requires
        n <= groups.len(),
        ducked(s, groups, n, after, blocks),
    ensures
        ducked(s, remastered(groups, master), n, after, blocks),
    decreases n,
{
    let other = remastered(groups, master);
    if n <= 0 {
        assert(blocks_of(other) =~= blocks_of(groups));
    } else {
        let mid = choose|mid: (S, Seq<Seq<T>>)|
            #![trigger duck_step(mid.0, groups, n - 1, mid.1, after, blocks)]
            ducked(s, groups, n - 1, mid.0, mid.1) && duck_step(
                mid.0,
                groups,
                n - 1,
                mid.1,
                after,
                blocks,
            );
        lemma_ducked_remastered(s, groups, master, n - 1, mid.0, mid.1);
        lemma_trigger_remastered(groups, master, n - 1);
        match groups[n - 1].duck {
            Some(duck) => {
                let reduced = choose|reduced: bool| #[trigger]
                    told_to_duck(mid.0, groups, n - 1, duck.threshold_db, reduced) && ducks(
                        mid.0,
                        (n - 1) as usize,
                        duck,
                        reduced,
                        mid.1[n - 1],
                        after,
                        blocks[n - 1],
                    );
                assert(told_to_duck(mid.0, other, n - 1, duck.threshold_db, reduced));
            },
            None => {},
        }
        assert(duck_step(mid.0, other, n - 1, mid.1, after, blocks));
    }
}

proof fn lemma_quiet_remastered<T>(m: MixerView<T>, master: Float32)
    ensures
        quiet_in(mixer_remastered(m, master)) == quiet_in(m),
{
    lemma_solo_remastered(m.groups, master);
    assert(quiet_in(mixer_remastered(m, master)) =~= quiet_in(m));
}

proof fn lemma_supplied_remastered<T, S: Signal<T>>(
    s: S,
    m: MixerView<T>,
    groups: Seq<GroupView<T>>,
    master: Float32,
    idle_frames: usize,
    n: int,
    after: S,
    then: Seq<GroupView<T>>,
)
    requires
        n <= groups.len() == m.groups.len(),
        supplied_upto(s, m, groups, idle_frames, n, after, then),
    ensures
        supplied_upto(
            s,
            mixer_remastered(m, master),
            remastered(groups, master),
            idle_frames,
            n,
            after,
            remastered(then, master),
        ),
        then.len() == groups.len(),
    decreases n,
{
    if n > 0 {
        let other = mixer_remastered(m, master);
        let mid = choose|mid: (S, Seq<GroupView<T>>)|
            #![trigger supply_step(mid.0, mid.1, n - 1, idle_frames, silent_now(m, n - 1), after, then)]
            supplied_upto(s, m, groups, idle_frames, n - 1, mid.0, mid.1) && supply_step(
                mid.0,
                mid.1,
                n - 1,
                idle_frames,
                silent_now(m, n - 1),
                after,
                then,
            );
        lemma_supplied_remastered(s, m, groups, master, idle_frames, n - 1, mid.0, mid.1);
        lemma_solo_remastered(m.groups, master);
        assert(silent_now(other, n - 1) == silent_now(m, n - 1));
        let p = choose|p: SupplyPath<T, S>| #[trigger]
            supply_path(
                p,
                mid.0,
                mid.1[n - 1],
                n - 1,
                idle_frames,
                silent_now(m, n - 1),
                after,
                then[n - 1],
            );
        let moved = remastered(mid.1, master);
        let end = remastered(then, master);
        assert(supply_path(
            p,
            mid.0,
            moved[n - 1],
            n - 1,
            idle_frames,
            silent_now(other, n - 1),
            after,
            end[n - 1],
        ));
        assert(end =~= moved.update(n - 1, end[n - 1]));
        let pair = (mid.0, moved);
        assert(supply_step(
            pair.0,
            pair.1,
            n - 1,
            idle_frames,
            silent_now(other, n - 1),
            after,
            end,
        ));
    }
}

proof fn lemma_span_remastered<T>(
    groups: Seq<GroupView<T>>,
    master: Float32,
    quiet: Seq<bool>,
    out: OutputView<T>,
)
    ensures
        span_of(remastered(groups, master), quiet, out) == span_of(groups, quiet, out),
{
    let other = remastered(groups, master);
    let id = out.id;
    if parking_full(groups, id) {
        let k = choose|k: int|
            0 <= k < groups.len() && (#[trigger] groups[k]).output == id && 2
                * groups[k].parked.len() >= groups[k].parking;
        assert(other[k].output == id && 2 * other[k].parked.len() >= other[k].parking);
    }
    if parking_full(other, id) {
        let k = choose|k: int|
            0 <= k < other.len() && (#[trigger] other[k]).output == id && 2
                * other[k].parked.len() >= other[k].parking;
        assert(groups[k].output == id && 2 * groups[k].parked.len() >= groups[k].parking);
    }
    lemma_least_remastered(groups, master, quiet, id, parking_full(groups, id), groups.len() as int);
}

proof fn lemma_least_remastered<T>(
    groups: Seq<GroupView<T>>,
    master: Float32,
    quiet: Seq<bool>,
    id: OutputId,
    full: bool,
    n: int,
)
    requires
        n <= groups.len(),
    ensures
        least_parked(remastered(groups, master), quiet, id, full, n) == least_parked(
            groups,
            quiet,
            id,
            full,
            n,
        ),
    decreases n,
{
    if n > 0 {
        lemma_least_remastered(groups, master, quiet, id, full, n - 1);
    }
}

proof fn lemma_drained_remastered<T>(
    groups: Seq<GroupView<T>>,
    master: Float32,
    quiet: Seq<bool>,
    outputs: Seq<OutputView<T>>,
    blocked: Seq<OutputId>,
    n: int,
)
    ensures
        drained(remastered(groups, master), quiet, outputs, blocked, n) == remastered(
            drained(groups, quiet, outputs, blocked, n),
            master,
        ),
    decreases n,
{
    if n > 0 {
        lemma_drained_remastered(groups, master, quiet, outputs, blocked, n - 1);
        let before = drained(groups, quiet, outputs, blocked, n - 1);
        lemma_span_remastered(before, master, quiet, outputs[n - 1]);
        let span = advance_of(before, quiet, outputs[n - 1], blocked);
        let id = outputs[n - 1].id;
        assert(after_span(remastered(before, master), id, span) =~= remastered(
            after_span(before, id, span),
            master,
        ));
    }
}

proof fn lemma_terms_remastered<T>(
    groups: Seq<GroupView<T>>,
    master: Float32,
    id: OutputId,
    span: nat,
    s: int,
    n: int,
)
    requires
        n <= groups.len(),
    ensures
        terms_at(remastered(groups, master), id, span, s, n) == terms_at(groups, id, span, s, n),
    decreases n,
{
    if n > 0 {
        lemma_terms_remastered(groups, master, id, span, s, n - 1);
    }
}

/// A tick has nothing to do with the master: with the master elsewhere it could
/// have gone just the same, up to every meter and every sample.
pub proof fn a_tick_ignores_the_master<T, S: Signal<T>, F: Fn(T, T) -> T>(
    s: S,
    plus: F,
    before: MixerView<T>,
    idle_frames: usize,
    blocked: Seq<OutputId>,
    after: S,
    then: MixerView<T>,
    master: Float32,
)
    requires
        ticked(s, plus, before, idle_frames, blocked, after, then),
    ensures
        ticked(
            s,
            plus,
            mixer_remastered(before, master),
            idle_frames,
            blocked,
            after,
            mixer_remastered(then, master),
        ),
{
    let quiet = quiet_in(before);
    let p = choose|p: TickPath<T, S>| #[trigger]
        tick_path(p, s, plus, before, idle_frames, blocked, after, then);
    let groups = before.groups.len() as int;
    let outputs = before.outputs.len() as int;
    let other = mixer_remastered(before, master);
    let end = mixer_remastered(then, master);
    let q = TickPath::<T, S> { supply: remastered(p.supply, master), ..p };
    lemma_quiet_remastered(before, master);
    lemma_followed_remastered(s, before.groups, master, groups, p.followed);
    lemma_ducked_remastered(p.followed, before.groups, master, groups, p.ducked, p.blocks);
    let blocks = with_blocks(before.groups, p.blocks);
    assert(with_blocks(other.groups, p.blocks) =~= remastered(blocks, master));
    lemma_supplied_remastered(
        p.ducked,
        before,
        blocks,
        master,
        idle_frames,
        groups,
        p.supplied,
        p.supply,
    );
    assert forall|o: int| 0 <= o < outputs implies advanced(
        plus,
        drained(q.supply, quiet, before.outputs, blocked, o),
        quiet,
        before.outputs[o],
        blocked,
        #[trigger] q.emitted[o],
    ) by {
        let at = drained(p.supply, quiet, before.outputs, blocked, o);
        let out = before.outputs[o];
        assert(advanced(plus, at, quiet, out, blocked, p.emitted[o]));
        lemma_drained_remastered(p.supply, master, quiet, before.outputs, blocked, o);
        lemma_span_remastered(at, master, quiet, out);
        let span = advance_of(at, quiet, out, blocked);
        assert forall|k: int| 0 <= k < span implies adds(
            plus,
            out.accum[k],
            terms_at(remastered(at, master), out.id, span, k, at.len() as int),
            #[trigger] q.emitted[o].accum[k],
        ) by {
            lemma_terms_remastered(at, master, out.id, span, k, at.len() as int);
        }
    }
    lemma_drained_remastered(p.supply, master, quiet, before.outputs, blocked, outputs);
    assert(tick_path(q, s, plus, other, idle_frames, blocked, after, end));
}

/// A group that does not follow the master is independent of it: what a push
/// into the group and the tick after it make of the group, of its meter and of
/// everything else could be just the same wherever the master stands.
pub proof fn an_independent_group_sounds_the_same<T, S: Signal<T>, F: Fn(T, T) -> T>(
    s: S,
    plus: F,
    before: MixerView<T>,
    max_block_frames: usize,
    i: int,
    frames: Seq<T>,
    between: S,
    mid: MixerView<T>,
    blocked: Seq<OutputId>,
    after: S,
    then: MixerView<T>,
    master: Float32,
)
    requires
        0 <= i < before.groups.len(),
        !before.groups[i].follow_master,
        pushed(s, before, max_block_frames as nat, i, frames, between, mid),
        ticked(between, plus, mid, max_block_frames, blocked, after, then),
    ensures
        pushed(
            s,
            mixer_remastered(before, master),
            max_block_frames as nat,
            i,
            frames,
            between,
            mixer_remastered(mid, master),
        ),
        ticked(
            between,
            plus,
            mixer_remastered(mid, master),
            max_block_frames,
            blocked,
            after,
            mixer_remastered(then, master),
        ),
{
    an_independent_group_ignores_the_master(
        s,
        before,
        max_block_frames as nat,
        i,
        frames,
        between,
        mid,
        master,
    );
    a_tick_ignores_the_master(
        between,
        plus,
        mid,
        max_block_frames,
        blocked,
        after,
        then,
        master,
    );
}

} // verus!
