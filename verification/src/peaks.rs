//! What the meters of a desk show of a group that does not follow the master, and
//! how loud one is that does.
use crate::command::CommandView;
use crate::desk::{reading, shows, strip_fresh, strips_after, Desk, Machine, Strip};
use crate::dynamics::{combines_at, fader_moves, Fader, FaderCourse};
use crate::float::{Float32, Float64};
use crate::meter::{envelope, flushed, frame_peak, moves, PeakMeter};
use crate::mixer::{
    group_at, groups_after, lemma_group_at, GroupView, MixerView, OutputView,
};
use crate::model::DspStageView;
use crate::ramp::{
    earlier, glides, lemma_resting, lemma_whole_frames, ramps, ramps_at, rests_at_its_target, scaled,
    Arithmetic, Smoothed,
};
use crate::resample::{fed, is_due, least, ran, resamples, Feed};
use crate::sample::{Format, GroupId, OutputId};
use crate::signal::{fades, filters, filters_upto, follows, stage_filters};
use crate::span::drained;
use crate::tick::{
    accepted_part, duck_step, ducked, feed_of, followed, limit_step, limited_upto, master_on,
    lemma_drained_settings, lemma_supplied_groups, pushed, quiet_in, same_settings, silent_now,
    supplied_upto, supply_path, supply_step, tick_path, ticked, with_blocks, SupplyPath, TickPath,
};
use vstd::prelude::*;

verus! {

/// Arithmetic that gives one answer to a question, whatever else it was asked.
pub open spec fn is_settled<A: Arithmetic>() -> bool {
    &&& forall|a: A, b: A, x: Float32, y: Float32, z: Float32, r: Float32, s: Float32|
        #![trigger glides(a, x, y, z, r), glides(b, x, y, z, s)]
        glides(a, x, y, z, r) && glides(b, x, y, z, s) ==> r == s
    &&& forall|a: A, b: A, x: Float32, y: Float32, r: Float32, s: Float32|
        #![trigger call_ensures(A::times, (&a, x, y), r), call_ensures(A::times, (&b, x, y), s)]
        call_ensures(A::times, (&a, x, y), r) && call_ensures(A::times, (&b, x, y), s) ==> r == s
    &&& forall|a: A, b: A, x: Float32, y: Float32, n: usize, r: Float32, s: Float32|
        #![trigger call_ensures(A::decay, (&a, x, y, n), r), call_ensures(A::decay, (&b, x, y, n), s)]
        call_ensures(A::decay, (&a, x, y, n), r) && call_ensures(A::decay, (&b, x, y, n), s) ==> r
            == s
    &&& forall|a: A, b: A, x: Float32, n: u32, r: Float32, s: Float32|
        #![trigger call_ensures(A::settling, (&a, x, n), r), call_ensures(A::settling, (&b, x, n), s)]
        call_ensures(A::settling, (&a, x, n), r) && call_ensures(A::settling, (&b, x, n), s) ==> r
            == s
}

/// Two strips that differ in what a group without stages, without ducking and
/// without a master has no use for.
pub open spec fn strips_alike(x: Strip, y: Strip) -> bool {
    &&& x.fader.gain == y.fader.gain
    &&& x.rack.format == y.rack.format
    &&& x.meter == y.meter
}

/// A group that neither follows the master nor is ducked, and has no stages.
pub open spec fn is_plain(g: GroupView<Float32>) -> bool {
    !g.follow_master && g.duck is None && g.chain.len() == 0
}

/// Two mixers of the same groups, with the same in group `i` as far as a plain
/// group has use for it.
pub open spec fn mixers_alike(x: MixerView<Float32>, y: MixerView<Float32>, i: int) -> bool {
    &&& x.groups.len() == y.groups.len()
    &&& forall|j: int| 0 <= j < x.groups.len() ==> (#[trigger] x.groups[j]).id == y.groups[j].id
    &&& 0 <= i < x.groups.len()
    &&& is_plain(x.groups[i])
    &&& is_plain(y.groups[i])
    &&& x.groups[i].gain == y.groups[i].gain
    &&& x.groups[i].channels == y.groups[i].channels
    &&& x.groups[i].block == y.groups[i].block
}

/// Two desks with a strip for group `i`, alike.
pub open spec fn desks_alike<M>(x: Desk<M>, y: Desk<M>, i: int) -> bool {
    &&& 0 <= i < x.strips@.len() <= usize::MAX
    &&& i < y.strips@.len() <= usize::MAX
    &&& strips_alike(x.strips@[i], y.strips@[i])
}

/// Something that is asked of a mixer.
pub enum Call {
    Push { group: int, frames: Seq<Float32> },
    Tick { blocked: Seq<OutputId> },
    Give { command: CommandView },
}

/// A call leads from one state of a mixer and its desk to another.
pub open spec fn leads<M: Machine, F: Fn(Float32, Float32) -> Float32>(
    call: Call,
    plus: F,
    max_block_frames: usize,
    s: Desk<M>,
    before: MixerView<Float32>,
    after: Desk<M>,
    then: MixerView<Float32>,
) -> bool {
    match call {
        Call::Push { group, frames } => 0 <= group < before.groups.len() && pushed(
            s,
            before,
            max_block_frames as nat,
            group,
            frames,
            after,
            then,
        ),
        Call::Tick { blocked } => ticked(
            s,
            plus,
            before,
            max_block_frames,
            blocked,
            after,
            then,
        ),
        Call::Give { command } => {
            &&& then.groups == groups_after(before.groups, command)
            &&& after.strips@ == strips_after(s.strips@, then.groups, command)
        },
    }
}

/// A command that leaves a plain group plain.
pub open spec fn keeps_plain(command: CommandView) -> bool {
    match command {
        CommandView::SetFollowMaster(..) => false,
        CommandView::SetDuck { .. } => false,
        CommandView::SetDspParam { .. } => false,
        CommandView::SetDspBypass { .. } => false,
        _ => true,
    }
}

/// A call that sets the master.
pub open spec fn sets_master(call: Call) -> bool {
    match call {
        Call::Give { command } => command is SetMaster,
        _ => false,
    }
}

/// The same call, or two that set the master.
pub open spec fn but_for_the_master(x: Call, y: Call) -> bool {
    ||| x == y && (x matches Call::Give { command } ==> keeps_plain(command))
    ||| sets_master(x) && sets_master(y)
}

proof fn lemma_ramps_agree<A: Arithmetic>(
    a: A,
    b: A,
    ramp: Smoothed,
    x: Seq<Float32>,
    y: Seq<Float32>,
    n: int,
)
    requires
        is_settled::<A>(),
        ramps(a, ramp, x),
        ramps(b, ramp, y),
        0 <= n <= x.len(),
        n <= y.len(),
    ensures
        forall|f: int| 0 <= f < n ==> x[f] == y[f],
    decreases n,
{
    if n > 0 {
        lemma_ramps_agree(a, b, ramp, x, y, n - 1);
        let f = n - 1;
        assert(ramps_at(a, ramp, x, f));
        assert(ramps_at(b, ramp, y, f));
        assert(earlier(ramp.current, x, f) == earlier(ramp.current, y, f));
    }
}

proof fn lemma_fades_agree<A: Arithmetic>(
    a: A,
    b: A,
    x: Fader,
    y: Fader,
    gain: Float32,
    n: nat,
    course: FaderCourse,
    other: FaderCourse,
    after: Fader,
    then: Fader,
)
    requires
        is_settled::<A>(),
        x.gain == y.gain,
        fader_moves(a, x, gain, None, n, course, after),
        fader_moves(b, y, gain, None, n, other, then),
    ensures
        course.factors == other.factors,
        after.gain == then.gain,
{
    lemma_ramps_agree(a, b, x.gain.toward(gain), course.gains, other.gains, n as int);
    assert(course.gains =~= other.gains);
    assert forall|f: int| 0 <= f < n implies course.factors[f] == other.factors[f] by {
        assert(combines_at(a, course, false, f));
        assert(combines_at(b, other, false, f));
    }
    assert(course.factors =~= other.factors);
}

proof fn lemma_scaled_agree<A: Arithmetic>(
    a: A,
    b: A,
    block: Seq<Float32>,
    channels: int,
    factors: Seq<Float32>,
    x: Seq<Float32>,
    y: Seq<Float32>,
)
    requires
        is_settled::<A>(),
        scaled(a, block, channels, factors, x),
        scaled(b, block, channels, factors, y),
    ensures
        x == y,
{
    assert forall|i: int| 0 <= i < x.len() implies x[i] == y[i] by {
        let p = x[i];
        let q = y[i];
    }
    assert(x =~= y);
}

proof fn lemma_envelopes_agree<A: Arithmetic>(
    a: A,
    b: A,
    release: Float32,
    block: Seq<Float32>,
    channels: int,
    n: int,
    from: Float32,
    x: Float32,
    y: Float32,
)
    requires
        is_settled::<A>(),
        envelope(a, release, block, channels, n, from, x),
        envelope(b, release, block, channels, n, from, y),
    ensures
        x == y,
    decreases n,
{
    if n > 0 {
        let peak = frame_peak(block, channels, n - 1);
        let p = choose|mid: Float32|
            envelope(a, release, block, channels, n - 1, from, mid) && #[trigger] moves(
                a,
                release,
                mid,
                peak,
                x,
            );
        let q = choose|mid: Float32|
            envelope(b, release, block, channels, n - 1, from, mid) && #[trigger] moves(
                b,
                release,
                mid,
                peak,
                y,
            );
        lemma_envelopes_agree(a, b, release, block, channels, n - 1, from, p, q);
    }
}

proof fn lemma_meters_agree<A: Arithmetic>(
    a: A,
    b: A,
    meter: PeakMeter,
    block: Seq<Float32>,
    channels: nat,
    idle_frames: usize,
    x: PeakMeter,
    y: PeakMeter,
)
    requires
        is_settled::<A>(),
        shows(a, meter, block, channels, idle_frames, x),
        shows(b, meter, block, channels, idle_frames, y),
    ensures
        x == y,
{
    if block.len() == 0 {
    } else if channels == 0 {
    } else {
        let frames = (block.len() / channels) as int;
        let p = choose|to: Float32| #[trigger]
            envelope(a, meter.release, block, channels as int, frames, meter.env, to) && x.env
                == flushed(to);
        let q = choose|to: Float32| #[trigger]
            envelope(b, meter.release, block, channels as int, frames, meter.env, to) && y.env
                == flushed(to);
        lemma_envelopes_agree(
            a,
            b,
            meter.release,
            block,
            channels as int,
            frames,
            meter.env,
            p,
            q,
        );
    }
}

/// Two new strips of the same group are alike, wherever the master stands.
pub proof fn new_strips_are_alike<A: Arithmetic>(
    a: A,
    b: A,
    format: Format,
    gain: Float32,
    master: Float32,
    other: Float32,
    x: Strip,
    y: Strip,
)
    requires
        is_settled::<A>(),
        strip_fresh(a, format, gain, master, x),
        strip_fresh(b, format, gain, other, y),
    ensures
        strips_alike(x, y),
{
    assert(x.rack.deep_view().format == x.rack.format);
    assert(y.rack.deep_view().format == y.rack.format);
}

/// What a push into group `j` leaves of the strips: those of the other groups
/// are as they were.
proof fn lemma_filtered_strips<M: Machine>(
    s: Desk<M>,
    j: usize,
    chain: Seq<DspStageView>,
    block: Seq<Float32>,
    n: int,
    after: Desk<M>,
    out: Seq<Float32>,
    i: int,
)
    requires
        filters_upto(s, j, chain, block, n, after, out),
        0 <= i < s.strips@.len(),
        i != j,
    ensures
        after.strips@.len() == s.strips@.len(),
        after.strips@[i] == s.strips@[i],
    decreases n,
{
    if n > 0 {
        let mid = choose|mid: (Desk<M>, Seq<Float32>)|
            #![trigger stage_filters(mid.0, j, (n - 1) as usize, chain[n - 1], mid.1, after, out)]
            filters_upto(s, j, chain, block, n - 1, mid.0, mid.1) && stage_filters(
                mid.0,
                j,
                (n - 1) as usize,
                chain[n - 1],
                mid.1,
                after,
                out,
            );
        lemma_filtered_strips(s, j, chain, block, n - 1, mid.0, mid.1, i);
    }
}

proof fn lemma_pushed_elsewhere<M: Machine>(
    s: Desk<M>,
    before: MixerView<Float32>,
    max_block_frames: nat,
    j: int,
    frames: Seq<Float32>,
    after: Desk<M>,
    then: MixerView<Float32>,
    i: int,
)
    requires
        pushed(s, before, max_block_frames, j, frames, after, then),
        0 <= j <= usize::MAX,
        0 <= i < s.strips@.len(),
        i != j,
    ensures
        after.strips@.len() == s.strips@.len(),
        after.strips@[i] == s.strips@[i],
{
    let g = before.groups[j];
    let block = then.groups[j].block;
    let mid = choose|mid: (Desk<M>, Seq<Float32>)|
        #![trigger filters(mid.0, j as usize, g.chain, mid.1, after, block)]
        fades(
            s,
            j as usize,
            g.gain,
            master_on(g),
            accepted_part(frames, g.channels, max_block_frames),
            mid.0,
            mid.1,
        ) && filters(mid.0, j as usize, g.chain, mid.1, after, block);
    lemma_filtered_strips(
        mid.0,
        j as usize,
        g.chain,
        mid.1,
        g.chain.len() as int,
        after,
        block,
        i,
    );
}

/// What a push into a plain group makes of its strip and its block.
spec fn plainly_faded<M: Machine>(
    s: Desk<M>,
    i: int,
    gain: Float32,
    block: Seq<Float32>,
    after: Desk<M>,
    out: Seq<Float32>,
) -> bool {
    &&& after.strips@.len() == s.strips@.len()
    &&& after.strips@[i].rack.format == s.strips@[i].rack.format
    &&& after.strips@[i].meter == s.strips@[i].meter
    &&& if s.strips@[i].rack.format.channels > 0 {
        let channels = s.strips@[i].rack.format.channels;
        exists|course: FaderCourse| #[trigger]
            fader_moves(
                s.machine,
                s.strips@[i].fader,
                gain,
                None,
                block.len() / (channels as nat),
                course,
                after.strips@[i].fader,
            ) && scaled(s.machine, block, channels as int, course.factors, out)
    } else {
        out == block && after.strips@[i] == s.strips@[i]
    }
}

proof fn lemma_pushed_here<M: Machine>(
    s: Desk<M>,
    before: MixerView<Float32>,
    max_block_frames: nat,
    i: int,
    frames: Seq<Float32>,
    after: Desk<M>,
    then: MixerView<Float32>,
)
    requires
        pushed(s, before, max_block_frames, i, frames, after, then),
        0 <= i < s.strips@.len() <= usize::MAX,
        is_plain(before.groups[i]),
    ensures
        plainly_faded(
            s,
            i,
            before.groups[i].gain,
            accepted_part(frames, before.groups[i].channels, max_block_frames),
            after,
            then.groups[i].block,
        ),
{
    let g = before.groups[i];
    let block = then.groups[i].block;
    let part = accepted_part(frames, g.channels, max_block_frames);
    let mid = choose|mid: (Desk<M>, Seq<Float32>)|
        #![trigger filters(mid.0, i as usize, g.chain, mid.1, after, block)]
        fades(s, i as usize, g.gain, master_on(g), part, mid.0, mid.1) && filters(
            mid.0,
            i as usize,
            g.chain,
            mid.1,
            after,
            block,
        );
    assert(mid.0 == after && mid.1 == block);
    let index = i as usize;
    assert(index as int == i);
}

proof fn lemma_pushes_agree<M: Machine>(
    s: Desk<M>,
    t: Desk<M>,
    i: int,
    gain: Float32,
    block: Seq<Float32>,
    after: Desk<M>,
    then: Desk<M>,
    x: Seq<Float32>,
    y: Seq<Float32>,
)
    requires
        is_settled::<M>(),
        desks_alike(s, t, i),
        plainly_faded(s, i, gain, block, after, x),
        plainly_faded(t, i, gain, block, then, y),
    ensures
        x == y,
        desks_alike(after, then, i),
{
    let format = s.strips@[i].rack.format;
    if format.channels > 0 {
        let n = block.len() / (format.channels as nat);
        let p = choose|course: FaderCourse| #[trigger]
            fader_moves(
                s.machine,
                s.strips@[i].fader,
                gain,
                None,
                n,
                course,
                after.strips@[i].fader,
            ) && scaled(s.machine, block, format.channels as int, course.factors, x);
        let q = choose|course: FaderCourse| #[trigger]
            fader_moves(
                t.machine,
                t.strips@[i].fader,
                gain,
                None,
                n,
                course,
                then.strips@[i].fader,
            ) && scaled(t.machine, block, format.channels as int, course.factors, y);
        lemma_fades_agree(
            s.machine,
            t.machine,
            s.strips@[i].fader,
            t.strips@[i].fader,
            gain,
            n,
            p,
            q,
            after.strips@[i].fader,
            then.strips@[i].fader,
        );
        lemma_scaled_agree(s.machine, t.machine, block, format.channels as int, p.factors, x, y);
    }
}

/// A strip with the same fader, the same stages and the same meter.
spec fn kept(x: Strip, y: Strip) -> bool {
    x.fader == y.fader && x.rack == y.rack && x.meter == y.meter
}

proof fn lemma_followed_strips<M: Machine>(
    s: Desk<M>,
    groups: Seq<GroupView<Float32>>,
    n: int,
    after: Desk<M>,
    i: int,
)
    requires
        followed(s, groups, n, after),
        n <= usize::MAX,
        0 <= i < s.strips@.len(),
    ensures
        after.strips@.len() == s.strips@.len(),
        kept(s.strips@[i], after.strips@[i]),
    decreases n,
{
    if n > 0 {
        let mid = choose|mid: Desk<M>|
            followed(s, groups, n - 1, mid) && #[trigger] follows(
                mid,
                (n - 1) as usize,
                groups[n - 1].block,
                after,
            );
        lemma_followed_strips(s, groups, n - 1, mid, i);
    }
}

proof fn lemma_ducked_strips<M: Machine>(
    s: Desk<M>,
    groups: Seq<GroupView<Float32>>,
    n: int,
    after: Desk<M>,
    blocks: Seq<Seq<Float32>>,
    i: int,
)
    requires
        ducked(s, groups, n, after, blocks),
        n <= groups.len(),
        n <= usize::MAX,
        0 <= i < s.strips@.len(),
        i < groups.len(),
        groups[i].duck is None,
    ensures
        after.strips@.len() == s.strips@.len(),
        kept(s.strips@[i], after.strips@[i]),
        blocks.len() == groups.len(),
        blocks[i] == groups[i].block,
    decreases n,
{
    if n > 0 {
        let mid = choose|mid: (Desk<M>, Seq<Seq<Float32>>)|
            #![trigger duck_step(mid.0, groups, n - 1, mid.1, after, blocks)]
            ducked(s, groups, n - 1, mid.0, mid.1) && duck_step(
                mid.0,
                groups,
                n - 1,
                mid.1,
                after,
                blocks,
            );
        lemma_ducked_strips(s, groups, n - 1, mid.0, mid.1, i);
    }
}

proof fn lemma_resampled_strips<M: Machine>(
    r: Desk<M>,
    line: usize,
    channels: nat,
    ratio: Float64,
    chunk: nat,
    input: Seq<Float32>,
    room: nat,
    f: Feed<Float32>,
    after: Desk<M>,
    end: Feed<Float32>,
)
    requires
        ran(r, line, channels, ratio, chunk, input, room, f, after, end),
    ensures
        after.strips == r.strips,
    decreases
            input.len() - f.consumed,
            if is_due(f, chunk, room) {
                1int
            } else {
                0
            },
{
    if chunk >= 1 && f.consumed <= input.len() && is_due(f, chunk, room) {
        let next = choose|next: (Desk<M>, Seq<Float32>)|
            #![trigger resamples(r, line, channels, f.pending, ratio, next.0, next.1)]
            resamples(r, line, channels, f.pending, ratio, next.0, next.1) && ran(
                next.0,
                line,
                channels,
                ratio,
                chunk,
                input,
                room,
                fed(
                    Feed {
                        pending: Seq::empty(),
                        waiting: next.1,
                        consumed: f.consumed,
                        output: f.output,
                    },
                    chunk,
                    input,
                    room,
                ),
                after,
                end,
            );
        lemma_resampled_strips(
            next.0,
            line,
            channels,
            ratio,
            chunk,
            input,
            room,
            fed(
                Feed {
                    pending: Seq::empty(),
                    waiting: next.1,
                    consumed: f.consumed,
                    output: f.output,
                },
                chunk,
                input,
                room,
            ),
            after,
            end,
        );
    }
}

/// The strip of a group after a tick: its meter has seen a block.
spec fn metered<M: Machine>(
    x: Strip,
    y: Strip,
    machine: M,
    block: Seq<Float32>,
    idle_frames: usize,
) -> bool {
    &&& x.fader == y.fader
    &&& x.rack == y.rack
    &&& shows(machine, x.meter, block, x.rack.format.channels as nat, idle_frames, y.meter)
}

proof fn lemma_supply_path_strips<M: Machine>(
    p: SupplyPath<Float32, Desk<M>>,
    s: Desk<M>,
    g: GroupView<Float32>,
    j: int,
    idle_frames: usize,
    silent: bool,
    after: Desk<M>,
    then: GroupView<Float32>,
    i: int,
)
    requires
        supply_path(p, s, g, j, idle_frames, silent, after, then),
        0 <= j <= usize::MAX,
        0 <= i < s.strips@.len(),
    ensures
        after.strips@.len() == s.strips@.len(),
        i != j ==> after.strips@[i] == s.strips@[i],
        i == j ==> metered(s.strips@[i], after.strips@[i], s.machine, g.block, idle_frames),
{
    lemma_resampled_strips(
        p.rendered,
        j as usize,
        g.lanes,
        g.ratio,
        g.chunk,
        p.input,
        g.parking,
        fed(feed_of(g), g.chunk, p.input, g.parking),
        after,
        p.end,
    );
    assert(p.rendered.strips == p.metered.strips);
    let index = j as usize;
    assert(index as int == j);
}

proof fn lemma_supplied_strips<M: Machine>(
    s: Desk<M>,
    m: MixerView<Float32>,
    groups: Seq<GroupView<Float32>>,
    idle_frames: usize,
    n: int,
    after: Desk<M>,
    then: Seq<GroupView<Float32>>,
    i: int,
) -> (machine: M)
    requires
        supplied_upto(s, m, groups, idle_frames, n, after, then),
        n <= groups.len() <= usize::MAX,
        0 <= i < s.strips@.len(),
        i < groups.len(),
    ensures
        after.strips@.len() == s.strips@.len(),
        then.len() == groups.len(),
        forall|k: int| n <= k < groups.len() ==> #[trigger] then[k] == groups[k],
        then[i].block == groups[i].block,
        i >= n ==> after.strips@[i] == s.strips@[i],
        i < n ==> metered(
            s.strips@[i],
            after.strips@[i],
            machine,
            groups[i].block,
            idle_frames,
        ),
    decreases n,
{
    if n <= 0 {
        s.machine
    } else {
        let mid = choose|mid: (Desk<M>, Seq<GroupView<Float32>>)|
            #![trigger supply_step(mid.0, mid.1, n - 1, idle_frames, silent_now(m, n - 1), after, then)]
            supplied_upto(s, m, groups, idle_frames, n - 1, mid.0, mid.1) && supply_step(
                mid.0,
                mid.1,
                n - 1,
                idle_frames,
                silent_now(m, n - 1),
                after,
                then,
            );
        let machine = lemma_supplied_strips(
            s,
            m,
            groups,
            idle_frames,
            n - 1,
            mid.0,
            mid.1,
            i,
        );
        let p = choose|p: SupplyPath<Float32, Desk<M>>| #[trigger]
            supply_path(
                p,
                mid.0,
                mid.1[n - 1],
                n - 1,
                idle_frames,
                silent_now(m, n - 1),
                after,
                then[n - 1],
            );
        lemma_supply_path_strips(
            p,
            mid.0,
            mid.1[n - 1],
            n - 1,
            idle_frames,
            silent_now(m, n - 1),
            after,
            then[n - 1],
            i,
        );
        assert(mid.1[n - 1] == groups[n - 1]);
        if i == n - 1 {
            mid.0.machine
        } else {
            machine
        }
    }
}

proof fn lemma_limited_strips<M: Machine>(
    s: Desk<M>,
    outputs: Seq<OutputView<Float32>>,
    idle_frames: usize,
    n: int,
    after: Desk<M>,
    then: Seq<OutputView<Float32>>,
)
    requires
        limited_upto(s, outputs, idle_frames, n, after, then),
    ensures
        after.strips == s.strips,
    decreases n,
{
    if n > 0 {
        let mid = choose|mid: (Desk<M>, Seq<OutputView<Float32>>)|
            #![trigger limit_step(mid.0, mid.1, n - 1, idle_frames, after, then)]
            limited_upto(s, outputs, idle_frames, n - 1, mid.0, mid.1) && limit_step(
                mid.0,
                mid.1,
                n - 1,
                idle_frames,
                after,
                then,
            );
        lemma_limited_strips(s, outputs, idle_frames, n - 1, mid.0, mid.1);
    }
}

proof fn lemma_drained_blocks(
    groups: Seq<GroupView<Float32>>,
    quiet: Seq<bool>,
    outputs: Seq<OutputView<Float32>>,
    blocked: Seq<OutputId>,
    n: int,
    i: int,
)
    requires
        0 <= i < groups.len(),
    ensures
        drained(groups, quiet, outputs, blocked, n).len() == groups.len(),
        drained(groups, quiet, outputs, blocked, n)[i].block == groups[i].block,
    decreases n,
{
    if n > 0 {
        lemma_drained_blocks(groups, quiet, outputs, blocked, n - 1, i);
    }
}

proof fn lemma_ticked_strip<M: Machine, F: Fn(Float32, Float32) -> Float32>(
    s: Desk<M>,
    plus: F,
    before: MixerView<Float32>,
    idle_frames: usize,
    blocked: Seq<OutputId>,
    after: Desk<M>,
    then: MixerView<Float32>,
    i: int,
) -> (machine: M)
    requires
        ticked(s, plus, before, idle_frames, blocked, after, then),
        before.groups.len() <= usize::MAX,
        0 <= i < s.strips@.len(),
        i < before.groups.len(),
        before.groups[i].duck is None,
    ensures
        after.strips@.len() == s.strips@.len(),
        metered(
            s.strips@[i],
            after.strips@[i],
            machine,
            before.groups[i].block,
            idle_frames,
        ),
        then.groups.len() == before.groups.len(),
        then.groups[i].block == before.groups[i].block,
        forall|j: int|
            0 <= j < before.groups.len() ==> same_settings(
                #[trigger] then.groups[j],
                before.groups[j],
            ),
{
    let quiet = quiet_in(before);
    let p = choose|p: TickPath<Float32, Desk<M>>| #[trigger]
        tick_path(p, s, plus, before, idle_frames, blocked, after, then);
    let n = before.groups.len() as int;
    lemma_followed_strips(s, before.groups, n, p.followed, i);
    lemma_ducked_strips(p.followed, before.groups, n, p.ducked, p.blocks, i);
    let groups = with_blocks(before.groups, p.blocks);
    let machine = lemma_supplied_strips(
        p.ducked,
        before,
        groups,
        idle_frames,
        n,
        p.supplied,
        p.supply,
        i,
    );
    let outputs = before.outputs.len() as int;
    lemma_limited_strips(p.supplied, p.emitted, idle_frames, outputs, after, then.outputs);
    lemma_drained_blocks(p.supply, quiet, before.outputs, blocked, outputs, i);
    assert forall|j: int| 0 <= j < n implies same_settings(
        #[trigger] then.groups[j],
        before.groups[j],
    ) by {
        lemma_supplied_groups(p.ducked, before, groups, idle_frames, n, p.supplied, p.supply, j);
        lemma_drained_settings(p.supply, quiet, before.outputs, blocked, outputs, j);
    }
    machine
}

proof fn lemma_same_place<T>(
    x: Seq<GroupView<T>>,
    y: Seq<GroupView<T>>,
    id: GroupId,
    from: int,
)
    requires
        x.len() == y.len(),
        forall|j: int| 0 <= j < x.len() ==> (#[trigger] x[j]).id == y[j].id,
        0 <= from,
    ensures
        group_at(x, id, from) == group_at(y, id, from),
    decreases x.len() - from,
{
    if from < x.len() {
        assert(x[from].id == y[from].id);
        lemma_same_place(x, y, id, from + 1);
    }
}

proof fn lemma_given_kept(groups: Seq<GroupView<Float32>>, c: CommandView)
    requires
        keeps_plain(c),
    ensures
        groups_after(groups, c).len() == groups.len(),
        forall|j: int|
            0 <= j < groups.len() ==> {
                let g = #[trigger] groups_after(groups, c)[j];
                &&& g.id == groups[j].id
                &&& g.channels == groups[j].channels
                &&& g.block == groups[j].block
                &&& g.follow_master == groups[j].follow_master
                &&& g.duck == groups[j].duck
                &&& g.chain == groups[j].chain
                &&& !(c is SetGroupGain) ==> g.gain == groups[j].gain
            },
{
    match c {
        CommandView::SetGroupGain(id, _) => {
            lemma_group_at(groups, id, 0);
        },
        CommandView::SetGroupMute(id, _) => {
            lemma_group_at(groups, id, 0);
        },
        CommandView::SetGroupSolo(id, _) => {
            lemma_group_at(groups, id, 0);
        },
        _ => {},
    }
}

proof fn lemma_given_alike(
    x: MixerView<Float32>,
    y: MixerView<Float32>,
    c: CommandView,
    d: CommandView,
    i: int,
    then_x: MixerView<Float32>,
    then_y: MixerView<Float32>,
)
    requires
        mixers_alike(x, y, i),
        but_for_the_master(Call::Give { command: c }, Call::Give { command: d }),
        then_x.groups == groups_after(x.groups, c),
        then_y.groups == groups_after(y.groups, d),
    ensures
        mixers_alike(then_x, then_y, i),
{
    lemma_given_kept(x.groups, c);
    lemma_given_kept(y.groups, d);
    match c {
        CommandView::SetGroupGain(id, _) => {
            lemma_same_place(x.groups, y.groups, id, 0);
            lemma_group_at(x.groups, id, 0);
        },
        _ => {},
    }
    assert forall|j: int| 0 <= j < then_x.groups.len() implies (#[trigger] then_x.groups[j]).id
        == then_y.groups[j].id by {
        assert(x.groups[j].id == y.groups[j].id);
    }
}

/// One call more, on two mixers that are alike up to the master.
proof fn lemma_calls_agree<M: Machine, F: Fn(Float32, Float32) -> Float32>(
    plus: F,
    max_block_frames: usize,
    i: int,
    c: Call,
    d: Call,
    x: (Desk<M>, MixerView<Float32>),
    y: (Desk<M>, MixerView<Float32>),
    then_x: (Desk<M>, MixerView<Float32>),
    then_y: (Desk<M>, MixerView<Float32>),
)
    requires
        is_settled::<M>(),
        but_for_the_master(c, d),
        x.1.groups.len() <= usize::MAX,
        mixers_alike(x.1, y.1, i),
        desks_alike(x.0, y.0, i),
        leads(c, plus, max_block_frames, x.0, x.1, then_x.0, then_x.1),
        leads(d, plus, max_block_frames, y.0, y.1, then_y.0, then_y.1),
    ensures
        mixers_alike(then_x.1, then_y.1, i),
        desks_alike(then_x.0, then_y.0, i),
        then_x.1.groups.len() == x.1.groups.len(),
{
    match c {
        Call::Push { group, frames } => {
            if group == i {
                lemma_pushed_here(
                    x.0,
                    x.1,
                    max_block_frames as nat,
                    i,
                    frames,
                    then_x.0,
                    then_x.1,
                );
                lemma_pushed_here(
                    y.0,
                    y.1,
                    max_block_frames as nat,
                    i,
                    frames,
                    then_y.0,
                    then_y.1,
                );
                lemma_pushes_agree(
                    x.0,
                    y.0,
                    i,
                    x.1.groups[i].gain,
                    accepted_part(frames, x.1.groups[i].channels, max_block_frames as nat),
                    then_x.0,
                    then_y.0,
                    then_x.1.groups[i].block,
                    then_y.1.groups[i].block,
                );
            } else {
                lemma_pushed_elsewhere(
                    x.0,
                    x.1,
                    max_block_frames as nat,
                    group,
                    frames,
                    then_x.0,
                    then_x.1,
                    i,
                );
                lemma_pushed_elsewhere(
                    y.0,
                    y.1,
                    max_block_frames as nat,
                    group,
                    frames,
                    then_y.0,
                    then_y.1,
                    i,
                );
            }
        },
        Call::Tick { blocked } => {
            let a = lemma_ticked_strip(
                x.0,
                plus,
                x.1,
                max_block_frames,
                blocked,
                then_x.0,
                then_x.1,
                i,
            );
            let b = lemma_ticked_strip(
                y.0,
                plus,
                y.1,
                max_block_frames,
                blocked,
                then_y.0,
                then_y.1,
                i,
            );
            lemma_meters_agree(
                a,
                b,
                x.0.strips@[i].meter,
                x.1.groups[i].block,
                x.0.strips@[i].rack.format.channels as nat,
                max_block_frames,
                then_x.0.strips@[i].meter,
                then_y.0.strips@[i].meter,
            );
            assert(same_settings(then_x.1.groups[i], x.1.groups[i]));
            assert(same_settings(then_y.1.groups[i], y.1.groups[i]));
            assert forall|j: int| 0 <= j < then_x.1.groups.len() implies (
            #[trigger] then_x.1.groups[j]).id == then_y.1.groups[j].id by {
                assert(same_settings(then_x.1.groups[j], x.1.groups[j]));
                assert(same_settings(then_y.1.groups[j], y.1.groups[j]));
                assert(x.1.groups[j].id == y.1.groups[j].id);
            }
        },
        Call::Give { command } => {
            match d {
                Call::Give { command: other } => {
                    lemma_given_kept(x.1.groups, command);
                    lemma_given_alike(x.1, y.1, command, other, i, then_x.1, then_y.1);
                },
                _ => {},
            }
        },
    }
}

/// A mixer and its desk go through some calls.
pub open spec fn goes_through<M: Machine, F: Fn(Float32, Float32) -> Float32>(
    plus: F,
    max_block_frames: usize,
    calls: Seq<Call>,
    states: Seq<(Desk<M>, MixerView<Float32>)>,
) -> bool {
    &&& states.len() == calls.len() + 1
    &&& forall|n: int|
        0 <= n < calls.len() ==> leads(
            #[trigger] calls[n],
            plus,
            max_block_frames,
            states[n].0,
            states[n].1,
            states[n + 1].0,
            states[n + 1].1,
        )
}

/// A group that does not follow the master is independent of it: two mixers that
/// differ in where the master stands, at first and whenever it is set, show the
/// same on the meter of a group without stages and without ducking, after any
/// number of pushes, ticks and commands that both are given alike.
pub proof fn an_independent_group_peaks_the_same<
    M: Machine,
    F: Fn(Float32, Float32) -> Float32,
>(
    plus: F,
    max_block_frames: usize,
    i: int,
    calls: Seq<Call>,
    x: Seq<(Desk<M>, MixerView<Float32>)>,
    others: Seq<Call>,
    y: Seq<(Desk<M>, MixerView<Float32>)>,
    n: int,
)
    requires
        is_settled::<M>(),
        goes_through(plus, max_block_frames, calls, x),
        goes_through(plus, max_block_frames, others, y),
        calls.len() == others.len(),
        forall|k: int|
            0 <= k < calls.len() ==> but_for_the_master(#[trigger] calls[k], others[k]),
        x[0].1.groups.len() <= usize::MAX,
        mixers_alike(x[0].1, y[0].1, i),
        desks_alike(x[0].0, y[0].0, i),
        0 <= n <= calls.len(),
    ensures
        reading(x[n].0.strips@[i].meter) == reading(y[n].0.strips@[i].meter),
        x[n].1.groups[i].block == y[n].1.groups[i].block,
        mixers_alike(x[n].1, y[n].1, i),
        desks_alike(x[n].0, y[n].0, i),
        x[n].1.groups.len() == x[0].1.groups.len(),
    decreases n,
{
    if n > 0 {
        an_independent_group_peaks_the_same(
            plus,
            max_block_frames,
            i,
            calls,
            x,
            others,
            y,
            n - 1,
        );
        let k = n - 1;
        assert(but_for_the_master(calls[k], others[k]));
        assert(leads(
            calls[k],
            plus,
            max_block_frames,
            x[k].0,
            x[k].1,
            x[k + 1].0,
            x[k + 1].1,
        ));
        assert(leads(
            others[k],
            plus,
            max_block_frames,
            y[k].0,
            y[k].1,
            y[k + 1].0,
            y[k + 1].1,
        ));
        lemma_calls_agree(plus, max_block_frames, i, calls[k], others[k], x[k], y[k], x[n], y[n]);
    }
}

/// A group that follows the master is as loud as both together say: where its
/// gain and the master's stand still, every sample of every whole frame is taken
/// times the product of the two.
pub proof fn a_following_group_has_both_gains<A: Arithmetic>(
    a: A,
    fader: Fader,
    gain: Float32,
    master: Float32,
    block: Seq<Float32>,
    channels: int,
    course: FaderCourse,
    after: Fader,
    out: Seq<Float32>,
    k: int,
)
    requires
        rests_at_its_target(a),
        channels > 0,
        fader.gain.current == gain,
        fader.master.current == master,
        fader_moves(
            a,
            fader,
            gain,
            Some(master),
            block.len() / (channels as nat),
            course,
            after,
        ),
        scaled(a, block, channels, course.factors, out),
        0 <= k < (block.len() / (channels as nat)) * channels,
    ensures
        exists|factor: Float32|
            #![trigger call_ensures(A::times, (&a, gain, master), factor)]
            call_ensures(A::times, (&a, gain, master), factor) && call_ensures(
                A::times,
                (&a, block[k], factor),
                out[k],
            ),
        after.gain.current == gain,
        after.master.current == master,
{
    let n = (block.len() / (channels as nat)) as int;
    lemma_resting(a, fader.gain.toward(gain), course.gains, n);
    lemma_resting(a, fader.master.toward(master), course.masters, n);
    lemma_whole_frames(k, channels, n);
    vstd::arithmetic::div_mod::lemma_div_pos_is_pos(k, channels);
    vstd::arithmetic::div_mod::lemma_fundamental_div_mod(block.len() as int, channels);
    assert(n * channels <= block.len()) by (nonlinear_arith)
        requires
            block.len() == channels * n + block.len() as int % channels,
            0 <= block.len() as int % channels,
    ;
    let f = k / channels;
    assert(combines_at(a, course, true, f));
    assert(call_ensures(A::times, (&a, gain, master), course.factors[f]));
    assert(call_ensures(A::times, (&a, block[k], course.factors[f]), out[k]));
}

/// What is pushed into a group that follows the master, and has no stages, has
/// both gains on it from the first sample on, where they stand still: every
/// sample that is taken in is taken times the product of the two.
pub proof fn a_push_has_both_gains<M: Machine>(
    s: Desk<M>,
    before: MixerView<Float32>,
    max_block_frames: nat,
    i: int,
    frames: Seq<Float32>,
    after: Desk<M>,
    then: MixerView<Float32>,
    k: int,
)
    requires
        rests_at_its_target(s.machine),
        0 <= i < s.strips@.len() <= usize::MAX,
        before.groups[i].follow_master,
        before.groups[i].chain.len() == 0,
        before.groups[i].channels == s.strips@[i].rack.format.channels > 0,
        s.strips@[i].fader.gain.current == before.groups[i].gain,
        s.strips@[i].fader.master.current == before.groups[i].master,
        pushed(s, before, max_block_frames, i, frames, after, then),
        0 <= k < then.groups[i].block.len(),
    ensures
        k < frames.len(),
        exists|factor: Float32|
            #![trigger call_ensures(M::times, (&s.machine, before.groups[i].gain, before.groups[i].master), factor)]
            call_ensures(
                M::times,
                (&s.machine, before.groups[i].gain, before.groups[i].master),
                factor,
            ) && call_ensures(
                M::times,
                (&s.machine, frames[k], factor),
                then.groups[i].block[k],
            ),
{
    let g = before.groups[i];
    let block = then.groups[i].block;
    let part = accepted_part(frames, g.channels, max_block_frames);
    let mid = choose|mid: (Desk<M>, Seq<Float32>)|
        #![trigger filters(mid.0, i as usize, g.chain, mid.1, after, block)]
        fades(s, i as usize, g.gain, master_on(g), part, mid.0, mid.1) && filters(
            mid.0,
            i as usize,
            g.chain,
            mid.1,
            after,
            block,
        );
    assert(mid.0 == after && mid.1 == block);
    let index = i as usize;
    assert(index as int == i);
    let channels = g.channels as int;
    let whole = (frames.len() / g.channels) as int;
    let taken = least(whole, max_block_frames as int);
    vstd::arithmetic::div_mod::lemma_fundamental_div_mod(frames.len() as int, channels);
    vstd::arithmetic::div_mod::lemma_div_pos_is_pos(frames.len() as int, channels);
    assert(0 <= taken * channels <= frames.len()) by (nonlinear_arith)
        requires
            frames.len() == channels * whole + frames.len() as int % channels,
            0 <= frames.len() as int % channels,
            0 <= taken <= whole,
            0 < channels,
    ;
    assert(part.len() == taken * channels);
    vstd::arithmetic::div_mod::lemma_fundamental_div_mod_converse(
        taken * channels,
        channels,
        taken,
        0,
    );
    let fader = s.strips@[i].fader;
    let course = choose|course: FaderCourse| #[trigger]
        fader_moves(
            s.machine,
            fader,
            g.gain,
            Some(g.master),
            part.len() / g.channels,
            course,
            after.strips@[i].fader,
        ) && scaled(s.machine, part, channels, course.factors, block);
    a_following_group_has_both_gains(
        s.machine,
        fader,
        g.gain,
        g.master,
        part,
        channels,
        course,
        after.strips@[i].fader,
        block,
        k,
    );
    assert(part[k] == frames[k]);
}

} // verus!
