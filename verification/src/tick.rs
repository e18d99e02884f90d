//! One tick of the mixer: from the samples that came in to what each output is
//! handed.
//!
//! What a tick leaves behind is stated over what the arithmetic can answer to
//! each question it is asked, in the order in which it is asked.
use crate::command::CommandView;
use crate::float::Float32;
use crate::mixer::{
    any_solo, group_at, groups_after, is_silenced, output_at, silenced, GroupView, Mixer, MixerView,
    OutputView, Render,
};
use crate::resample::{fed, least, ran, Feed, SrcProgress};
use crate::sample::{Gain, GroupId, OutputId};
use crate::signal::{
    ducks, fades, filters, follows, limits, meters, meters_output, renders, tells, Signal,
};
use crate::span::{
    advance_of, advanced, drained, gates, has_in_flight, least_parked, parking_full, share, span_of,
};
use vstd::prelude::*;

verus! {

/// The group whose level ducks group `i`: the trigger that is configured, as
/// long as it can be heard.
pub open spec fn duck_trigger<T>(groups: Seq<GroupView<T>>, i: int) -> Option<int> {
    match groups[i].duck {
        None => None,
        Some(duck) => match group_at(groups, duck.trigger, 0) {
            None => None,
            Some(t) => if is_silenced(groups[t].mute, groups[t].solo, any_solo(groups)) {
                None
            } else {
                Some(t)
            },
        },
    }
}

/// The part of a block that a group takes in: whole frames, and no more than
/// blocks may have.
pub open spec fn accepted_part<T>(frames: Seq<T>, channels: nat, max_block_frames: nat) -> Seq<T> {
    frames.take(least((frames.len() / channels) as int, max_block_frames as int) * channels)
}

/// The master gain that is on a group: none where it does not follow it.
pub open spec fn master_on<T>(g: GroupView<T>) -> Option<Float32> {
    if g.follow_master {
        Some(g.master)
    } else {
        None
    }
}

/// Group `i` has another block to mix: the part of the frames that it takes in
/// with its gain on it, and then its stages. Nothing else is different.
pub open spec fn pushed<T, S: Signal<T>>(
    s: S,
    before: MixerView<T>,
    max_block_frames: nat,
    i: int,
    frames: Seq<T>,
    after: S,
    then: MixerView<T>,
) -> bool {
    let g = before.groups[i];
    let block = then.groups[i].block;
    &&& then == (MixerView {
        groups: before.groups.update(i, GroupView { block, ..g }),
        ..before
    })
    &&& exists|mid: (S, Seq<T>)|
        #![trigger filters(mid.0, i as usize, g.chain, mid.1, after, block)]
        fades(
            s,
            i as usize,
            g.gain,
            master_on(g),
            accepted_part(frames, g.channels, max_block_frames),
            mid.0,
            mid.1,
        ) && filters(mid.0, i as usize, g.chain, mid.1, after, block)
}

/// The levels of the first `n` groups followed their blocks, one group after
/// the other.
pub open spec fn followed<T, S: Signal<T>>(s: S, groups: Seq<GroupView<T>>, n: int, after: S) -> bool
    decreases n,
{
    if n <= 0 {
        after == s
    } else {
        exists|mid: S|
            followed(s, groups, n - 1, mid) && #[trigger] follows(
                mid,
                (n - 1) as usize,
                groups[n - 1].block,
                after,
            )
    }
}

/// The blocks of some groups.
pub open spec fn blocks_of<T>(groups: Seq<GroupView<T>>) -> Seq<Seq<T>> {
    Seq::new(groups.len(), |i: int| groups[i].block)
}

/// The groups with other blocks.
pub open spec fn with_blocks<T>(groups: Seq<GroupView<T>>, blocks: Seq<Seq<T>>) -> Seq<GroupView<T>> {
    Seq::new(groups.len(), |i: int| GroupView { block: blocks[i], ..groups[i] })
}

/// Whether group `i` is to be quieter: it is ducked, and the level of its
/// trigger is above the threshold.
pub open spec fn told_to_duck<T, S: Signal<T>>(
    s: S,
    groups: Seq<GroupView<T>>,
    i: int,
    threshold_db: Float32,
    reduced: bool,
) -> bool {
    match duck_trigger(groups, i) {
        Some(t) => tells::<T, S>(s, t as usize, threshold_db, reduced),
        None => !reduced,
    }
}

/// The block of group `i` is ducked, where the group is.
pub open spec fn duck_step<T, S: Signal<T>>(
    s: S,
    groups: Seq<GroupView<T>>,
    i: int,
    blocks: Seq<Seq<T>>,
    after: S,
    then: Seq<Seq<T>>,
) -> bool {
    match groups[i].duck {
        None => after == s && then == blocks,
        Some(duck) => {
            &&& then == blocks.update(i, then[i])
            &&& exists|reduced: bool| #[trigger]
                told_to_duck(s, groups, i, duck.threshold_db, reduced) && ducks(
                    s,
                    i as usize,
                    duck,
                    reduced,
                    blocks[i],
                    after,
                    then[i],
                )
        },
    }
}

/// The blocks of the first `n` groups are ducked, one group after the other.
pub open spec fn ducked<T, S: Signal<T>>(
    s: S,
    groups: Seq<GroupView<T>>,
    n: int,
    after: S,
    blocks: Seq<Seq<T>>,
) -> bool
    decreases n,
{
    if n <= 0 {
        after == s && blocks == blocks_of(groups)
    } else {
        exists|mid: (S, Seq<Seq<T>>)|
            #![trigger duck_step(mid.0, groups, n - 1, mid.1, after, blocks)]
            ducked(s, groups, n - 1, mid.0, mid.1) && duck_step(
                mid.0,
                groups,
                n - 1,
                mid.1,
                after,
                blocks,
            )
    }
}

/// Whether group `i` is silent on this tick.
pub open spec fn silent_now<T>(m: MixerView<T>, i: int) -> bool {
    m.muted || is_silenced(m.groups[i].mute, m.groups[i].solo, any_solo(m.groups))
}

/// Which groups are silent on this tick.
pub open spec fn quiet_in<T>(m: MixerView<T>) -> Seq<bool> {
    Seq::new(m.groups.len(), |i: int| silent_now(m, i))
}

/// A rendering that leaves samples as they are.
pub open spec fn passes_through(render: Render) -> bool {
    match render {
        Render::Matrix(m) => m.identity,
        Render::Spatial(_) => false,
    }
}

/// The states between the steps that supply one group.
pub struct SupplyPath<T, S> {
    pub metered: S,
    pub rendered: S,
    pub input: Seq<T>,
    pub end: Feed<T>,
}

/// What stands at both ends of the resampler of a group.
pub open spec fn feed_of<T>(g: GroupView<T>) -> Feed<T> {
    Feed { pending: g.pending, waiting: g.waiting, consumed: 0, output: g.parked }
}

/// One group is metered, rendered where that changes anything, and resampled
/// into what it has parked; a silent one keeps nothing parked.
pub open spec fn supply_path<T, S: Signal<T>>(
    p: SupplyPath<T, S>,
    s: S,
    g: GroupView<T>,
    i: int,
    idle_frames: usize,
    silent: bool,
    after: S,
    then: GroupView<T>,
) -> bool {
    &&& meters(s, i as usize, g.block, idle_frames, p.metered)
    &&& if passes_through(g.render) {
        p.input == g.block && p.rendered == p.metered
    } else {
        renders(p.metered, i as usize, g.render, g.block, p.rendered, p.input)
    }
    &&& ran(
        p.rendered,
        i as usize,
        g.lanes,
        g.ratio,
        g.chunk,
        p.input,
        g.parking,
        fed(feed_of(g), g.chunk, p.input, g.parking),
        after,
        p.end,
    )
    &&& then == (GroupView {
        pending: p.end.pending,
        waiting: p.end.waiting,
        parked: if silent {
            Seq::empty()
        } else {
            p.end.output
        },
        ..g
    })
}

/// What a tick makes of one group before any output advances.
pub open spec fn supplied<T, S: Signal<T>>(
    s: S,
    g: GroupView<T>,
    i: int,
    idle_frames: usize,
    silent: bool,
    after: S,
    then: GroupView<T>,
) -> bool {
    exists|p: SupplyPath<T, S>| #[trigger]
        supply_path(p, s, g, i, idle_frames, silent, after, then)
}

/// Group `i` is supplied and the others are left alone.
pub open spec fn supply_step<T, S: Signal<T>>(
    s: S,
    groups: Seq<GroupView<T>>,
    i: int,
    idle_frames: usize,
    silent: bool,
    after: S,
    then: Seq<GroupView<T>>,
) -> bool {
    &&& then == groups.update(i, then[i])
    &&& supplied(s, groups[i], i, idle_frames, silent, after, then[i])
}

/// The first `n` groups are supplied, one after the other. Who is silent is
/// settled before.
pub open spec fn supplied_upto<T, S: Signal<T>>(
    s: S,
    m: MixerView<T>,
    groups: Seq<GroupView<T>>,
    idle_frames: usize,
    n: int,
    after: S,
    then: Seq<GroupView<T>>,
) -> bool
    decreases n,
{
    if n <= 0 {
        after == s && then == groups
    } else {
        exists|mid: (S, Seq<GroupView<T>>)|
            #![trigger supply_step(mid.0, mid.1, n - 1, idle_frames, silent_now(m, n - 1), after, then)]
            supplied_upto(s, m, groups, idle_frames, n - 1, mid.0, mid.1) && supply_step(
                mid.0,
                mid.1,
                n - 1,
                idle_frames,
                silent_now(m, n - 1),
                after,
                then,
            )
    }
}

/// The first samples replaced by a block, as far as it goes and `n` samples at
/// most.
pub open spec fn overlaid<T>(accum: Seq<T>, block: Seq<T>, n: int) -> Seq<T> {
    Seq::new(
        accum.len(),
        |k: int|
            if k < n && k < block.len() {
                block[k]
            } else {
                accum[k]
            },
    )
}

/// What output `o` plays is limited and metered, and the other outputs are left
/// alone.
pub open spec fn limit_step<T, S: Signal<T>>(
    s: S,
    outputs: Seq<OutputView<T>>,
    o: int,
    idle_frames: usize,
    after: S,
    then: Seq<OutputView<T>>,
) -> bool {
    let out = outputs[o];
    exists|mid: (S, Seq<T>)|
        #![trigger limits(s, o as usize, out.accum.take(out.filled as int), mid.0, mid.1)]
        {
            &&& limits(s, o as usize, out.accum.take(out.filled as int), mid.0, mid.1)
            &&& then == outputs.update(
                o,
                OutputView { accum: overlaid(out.accum, mid.1, out.filled as int), ..out },
            )
            &&& meters_output(
                mid.0,
                o as usize,
                then[o].accum.take(out.filled as int),
                idle_frames,
                after,
            )
        }
}

/// What the first `n` outputs play is limited and metered, one output after the
/// other.
pub open spec fn limited_upto<T, S: Signal<T>>(
    s: S,
    outputs: Seq<OutputView<T>>,
    idle_frames: usize,
    n: int,
    after: S,
    then: Seq<OutputView<T>>,
) -> bool
    decreases n,
{
    if n <= 0 {
        after == s && then == outputs
    } else {
        exists|mid: (S, Seq<OutputView<T>>)|
            #![trigger limit_step(mid.0, mid.1, n - 1, idle_frames, after, then)]
            limited_upto(s, outputs, idle_frames, n - 1, mid.0, mid.1) && limit_step(
                mid.0,
                mid.1,
                n - 1,
                idle_frames,
                after,
                then,
            )
    }
}

/// The states between the phases of a tick.
pub struct TickPath<T, S> {
    pub followed: S,
    pub ducked: S,
    pub blocks: Seq<Seq<T>>,
    pub supplied: S,
    pub supply: Seq<GroupView<T>>,
    pub emitted: Seq<OutputView<T>>,
}

/// The phases of a tick: all levels are followed, then all ducking is applied,
/// then all groups are supplied, then the outputs advance, and what they play
/// is limited and metered.
pub open spec fn tick_path<T, S: Signal<T>, F: Fn(T, T) -> T>(
    p: TickPath<T, S>,
    s: S,
    plus: F,
    before: MixerView<T>,
    idle_frames: usize,
    blocked: Seq<OutputId>,
    after: S,
    then: MixerView<T>,
) -> bool {
    let groups = before.groups.len() as int;
    let outputs = before.outputs.len() as int;
    let quiet = quiet_in(before);
    &&& followed(s, before.groups, groups, p.followed)
    &&& ducked(p.followed, before.groups, groups, p.ducked, p.blocks)
    &&& supplied_upto(
        p.ducked,
        before,
        with_blocks(before.groups, p.blocks),
        idle_frames,
        groups,
        p.supplied,
        p.supply,
    )
    &&& p.emitted.len() == outputs
    &&& forall|o: int|
        0 <= o < outputs ==> advanced(
            plus,
            drained(p.supply, quiet, before.outputs, blocked, o),
            quiet,
            before.outputs[o],
            blocked,
            #[trigger] p.emitted[o],
        )
    &&& limited_upto(p.supplied, p.emitted, idle_frames, outputs, after, then.outputs)
    &&& then.groups == drained(p.supply, quiet, before.outputs, blocked, outputs)
    &&& then.muted == before.muted
}

/// What a tick makes of a mixer.
pub open spec fn ticked<T, S: Signal<T>, F: Fn(T, T) -> T>(
    s: S,
    plus: F,
    before: MixerView<T>,
    idle_frames: usize,
    blocked: Seq<OutputId>,
    after: S,
    then: MixerView<T>,
) -> bool {
    exists|p: TickPath<T, S>| #[trigger]
        tick_path(p, s, plus, before, idle_frames, blocked, after, then)
}

/// How many samples an output hands over after it advanced.
pub open spec fn filled_after<T>(
    groups: Seq<GroupView<T>>,
    quiet: Seq<bool>,
    out: OutputView<T>,
    blocked: Seq<OutputId>,
) -> nat {
    let span = advance_of(groups, quiet, out, blocked);
    if blocked.contains(out.id) {
        0
    } else if span == 0 {
        out.filled
    } else {
        span
    }
}

/// An output after what it had to hand over was taken.
pub open spec fn taken<T>(out: OutputView<T>, silence: T) -> OutputView<T> {
    OutputView {
        accum: Seq::new(
            out.accum.len(),
            |s: int|
                if s < out.filled {
                    silence
                } else {
                    out.accum[s]
                },
        ),
        filled: 0,
        ..out
    }
}

fn prefix_of<T: Copy>(samples: &[T], n: usize) -> (r: Vec<T>)
    requires
        n <= samples@.len(),
    ensures
        r@ == samples@.take(n as int),
{
    let mut out: Vec<T> = Vec::with_capacity(n);
    let mut i: usize = 0;
    while i < n
        invariant
            i <= n <= samples@.len(),
            out@ == samples@.take(i as int),
        decreases n - i,
    {
        out.push(samples[i]);
        i = i + 1;
        assert(samples@.take(i as int) =~= samples@.take(i - 1).push(samples@[i - 1]));
    }
    out
}

/// Puts a block over the first `n` samples, as far as it goes.
fn overwrite<T: Copy>(accum: &mut Vec<T>, block: &Vec<T>, n: usize)
    requires
        n <= old(accum)@.len(),
    ensures
        final(accum)@ == overlaid(old(accum)@, block@, n as int),
{
    let end: usize = if n <= block.len() {
        n
    } else {
        block.len()
    };
    let mut s: usize = 0;
    while s < end
        invariant
            s <= end <= n <= accum@.len() == old(accum)@.len(),
            end <= block@.len(),
            forall|k: int| 0 <= k < s ==> accum@[k] == block@[k],
            forall|k: int| s <= k < accum@.len() ==> accum@[k] == old(accum)@[k],
        decreases end - s,
    {
        accum[s] = block[s];
        s = s + 1;
    }
    assert(accum@ =~= overlaid(old(accum)@, block@, n as int));
}

/// Makes the first `n` samples silent.
fn clear<T: Copy>(accum: &mut Vec<T>, n: usize, silence: T)
    requires
        n <= old(accum)@.len(),
    ensures
        final(accum)@.len() == old(accum)@.len(),
        forall|k: int|
            0 <= k < old(accum)@.len() ==> #[trigger] final(accum)@[k] == if k < n {
                silence
            } else {
                old(accum)@[k]
            },
{
    let mut s: usize = 0;
    while s < n
        invariant
            s <= n <= accum@.len() == old(accum)@.len(),
            forall|k: int|
                0 <= k < accum@.len() ==> #[trigger] accum@[k] == if k < s {
                    silence
                } else {
                    old(accum)@[k]
                },
        decreases n - s,
    {
        accum[s] = silence;
        s = s + 1;
    }
}

impl<T: Copy> Mixer<T> {
    /// The group whose level ducks group `i`, if any does.
    pub fn duck_source(&self, i: usize) -> (r: Option<usize>)
        requires
            i < self.groups@.len(),
        ensures
            match r {
                Some(t) => duck_trigger(self.model().groups, i as int) == Some(t as int) && t
                    < self.groups@.len(),
                None => duck_trigger(self.model().groups, i as int) is None,
            },
    {
        assert(self.model().groups[i as int] == self.groups@[i as int].model());
        match self.groups[i].duck {
            None => None,
            Some(duck) => match self.find_group(duck.trigger) {
                None => None,
                Some(t) => {
                    assert(self.model().groups[t as int] == self.groups@[t as int].model());
                    if silenced(&self.groups[t], self.solo_active()) {
                        None
                    } else {
                        Some(t)
                    }
                },
            },
        }
    }

    /// The part of a block that group `i` takes in.
    pub fn accepted(&self, i: usize, frames: &[T]) -> (r: Vec<T>)
        requires
            i < self.groups@.len(),
            self.groups@[i as int].channels > 0,
        ensures
            r@ == accepted_part(
                frames@,
                self.groups@[i as int].channels as nat,
                self.max_block_frames as nat,
            ),
    {
        let channels: usize = self.groups[i].channels;
        let len: usize = frames.len();
        let whole: usize = len / channels;
        let count: usize = if whole <= self.max_block_frames {
            whole
        } else {
            self.max_block_frames
        };
        proof {
            vstd::arithmetic::div_mod::lemma_fundamental_div_mod(len as int, channels as int);
            assert(count * channels <= len) by (nonlinear_arith)
                requires
                    len == channels * whole + len % channels,
                    count <= whole,
                    len % channels >= 0,
            ;
        }
        prefix_of(frames, count * channels)
    }

    /// Takes in one block of a group, at most as long as blocks may be, and
    /// puts gain and stages on it. A group that is not here takes nothing in.
    pub fn push_group<S: Signal<T>>(&mut self, signal: S, group: GroupId, frames: &[T]) -> (r: S)
        requires
            old(self).wf(),
        ensures
            final(self).wf(),
            final(self).max_block_frames == old(self).max_block_frames,
            final(self).silence == old(self).silence,
            final(self).outputs == old(self).outputs,
            match group_at(old(self).model().groups, group, 0) {
                None => final(self).model() == old(self).model() && r == signal,
                Some(i) => pushed(
                    signal,
                    old(self).model(),
                    old(self).max_block_frames as nat,
                    i,
                    frames@,
                    r,
                    final(self).model(),
                ),
            },
    {
        let i = match self.find_group(group) {
            Some(i) => i,
            None => {
                return signal;
            },
        };
        let ghost before = self.model();
        let ghost g = before.groups[i as int];
        assert(self.groups@[i as int].wf());
        let block = self.accepted(i, frames);
        let master: Option<Gain> = if self.groups[i].follow_master {
            Some(self.groups[i].master)
        } else {
            None
        };
        let gain = self.groups[i].gain;
        let ghost start = signal;
        let ghost asked = (gain, master, block);
        let (faded_signal, faded) = signal.fade(i, gain, master, block);
        let ghost mid = (faded_signal, faded@);
        assert(call_ensures(
            S::fade,
            (start, i, asked.0, asked.1, asked.2),
            (faded_signal, faded),
        ));
        assert(fades(start, i, g.gain, master_on(g), asked.2@, mid.0, mid.1));
        let (done_signal, done) = self.groups[i].chain.process(faded_signal, i, faded);
        assert(filters(mid.0, i, g.chain, mid.1, done_signal, done@));
        let ghost taken = done@;
        self.groups[i].scratch = done;
        proof {
            assert(self.model().groups =~= before.groups.update(
                i as int,
                GroupView { block: taken, ..g },
            ));
            assert(self.model().groups[i as int].block == taken);
            assert(filters(mid.0, i as int as usize, g.chain, mid.1, done_signal, taken));
        }
        done_signal
    }

    /// Which groups are silent on this tick.
    fn quiet_groups(&self) -> (r: Vec<bool>)
        ensures
            r@ == quiet_in(self.model()),
    {
        let solo_active = self.solo_active();
        let mut quiet: Vec<bool> = Vec::new();
        let mut i: usize = 0;
        while i < self.groups.len()
            invariant
                i <= self.groups@.len(),
                solo_active == any_solo(self.model().groups),
                quiet@ == quiet_in(self.model()).take(i as int),
            decreases self.groups@.len() - i,
        {
            let silent = self.muted || silenced(&self.groups[i], solo_active);
            assert(self.model().groups[i as int] == self.groups@[i as int].model());
            quiet.push(silent);
            assert(quiet@ =~= quiet_in(self.model()).take(i + 1));
            i = i + 1;
        }
        assert(quiet@ =~= quiet_in(self.model()));
        quiet
    }

    fn follow_groups<S: Signal<T>>(&self, signal: S) -> (r: S)
        ensures
            followed(signal, self.model().groups, self.groups@.len() as int, r),
    {
        let ghost start = signal;
        let mut signal = signal;
        let count: usize = self.groups.len();
        let mut i: usize = 0;
        while i < count
            invariant
                i <= count == self.groups@.len(),
                followed(start, self.model().groups, i as int, signal),
            decreases count - i,
        {
            let ghost mid = signal;
            let ghost asked = self.groups@[i as int].scratch;
            let next = signal.follow(i, &self.groups[i].scratch);
            assert(call_ensures(S::follow, (mid, i, &asked), next));
            signal = next;
            i = i + 1;
            assert(follows(mid, (i - 1) as usize, self.model().groups[i - 1].block, signal));
        }
        signal
    }

    fn duck_groups<S: Signal<T>>(&mut self, signal: S) -> (r: S)
        requires
            old(self).wf(),
        ensures
            final(self).wf(),
            final(self).max_block_frames == old(self).max_block_frames,
            final(self).silence == old(self).silence,
            final(self).muted == old(self).muted,
            final(self).outputs == old(self).outputs,
            final(self).groups@.len() == old(self).groups@.len(),
            final(self).model().groups == with_blocks(
                old(self).model().groups,
                blocks_of(final(self).model().groups),
            ),
            ducked(
                signal,
                old(self).model().groups,
                old(self).groups@.len() as int,
                r,
                blocks_of(final(self).model().groups),
            ),
    {
        let ghost start = signal;
        let ghost groups = self.model().groups;
        let mut signal = signal;
        let count: usize = self.groups.len();
        let mut i: usize = 0;
        assert(self.model().groups =~= with_blocks(groups, blocks_of(self.model().groups)));
        while i < count
            invariant
                i <= count == self.groups@.len() == old(self).groups@.len(),
                self.wf(),
                self.max_block_frames == old(self).max_block_frames,
                self.silence == old(self).silence,
                self.muted == old(self).muted,
                self.outputs == old(self).outputs,
                groups == old(self).model().groups,
                self.model().groups == with_blocks(groups, blocks_of(self.model().groups)),
                ducked(start, groups, i as int, signal, blocks_of(self.model().groups)),
            decreases count - i,
        {
            let ghost mid = (signal, blocks_of(self.model().groups));
            let ghost now = self.model().groups;
            assert(now[i as int] == self.groups@[i as int].model());
            assert(now[i as int].duck == groups[i as int].duck);
            match self.groups[i].duck {
                Some(duck) => {
                    proof {
                        lemma_trigger_ignores_blocks(groups, mid.1, i as int);
                    }
                    let reduced = match self.duck_source(i) {
                        Some(t) => signal.is_above(t, duck.threshold_db),
                        None => false,
                    };
                    assert(told_to_duck(mid.0, groups, i as int, duck.threshold_db, reduced));
                    let mut block: Vec<T> = Vec::new();
                    std::mem::swap(&mut block, &mut self.groups[i].scratch);
                    let ghost asked = block;
                    let (next, out) = signal.duck(i, duck, reduced, block);
                    assert(call_ensures(S::duck, (mid.0, i, duck, reduced, asked), (next, out)));
                    assert(ducks(mid.0, i, duck, reduced, mid.1[i as int], next, out@));
                    signal = next;
                    self.groups[i].scratch = out;
                    proof {
                        let then = blocks_of(self.model().groups);
                        assert(then =~= mid.1.update(i as int, then[i as int]));
                        assert(self.model().groups =~= with_blocks(groups, then));
                        assert(duck_step(mid.0, groups, i as int, mid.1, next, then));
                    }
                },
                None => {
                    assert(duck_step(mid.0, groups, i as int, mid.1, signal, mid.1));
                },
            }
            i = i + 1;
            assert(duck_step(
                mid.0,
                groups,
                i - 1,
                mid.1,
                signal,
                blocks_of(self.model().groups),
            ));
        }
        signal
    }

    /// Renders and resamples the block of group `i` and parks the result; a
    /// silent group parks nothing.
    fn supply<S: Signal<T>>(&mut self, signal: S, i: usize, silent: bool) -> (r: S)
        requires
            old(self).wf(),
            i < old(self).groups@.len(),
        ensures
            final(self).wf(),
            final(self).max_block_frames == old(self).max_block_frames,
            final(self).silence == old(self).silence,
            final(self).muted == old(self).muted,
            final(self).outputs == old(self).outputs,
            final(self).groups@.len() == old(self).groups@.len(),
            forall|j: int|
                0 <= j < old(self).groups@.len() && j != i ==> final(self).groups@[j] == old(
                    self).groups@[j],
            supply_step(
                signal,
                old(self).model().groups,
                i as int,
                old(self).max_block_frames,
                silent,
                r,
                final(self).model().groups,
            ),
    {
        let ghost start = self.groups@[i as int];
        let ghost groups = self.model().groups;
        let ghost g = groups[i as int];
        let ghost first = signal;
        assert(start.wf());
        assert(g == start.model());
        let idle: usize = self.max_block_frames;
        let ghost asked = start.scratch;
        let metered = signal.meter(i, &self.groups[i].scratch, idle);
        assert(call_ensures(S::meter, (first, i, &asked, idle), metered));
        assert(meters(first, i, g.block, idle, metered));
        let ghost shown = metered;
        let room: usize = self.groups[i].parking;
        let identity = self.groups[i].render.is_identity();
        let state = &mut self.groups[i];
        let ghost p_rendered;
        let ghost p_input;
        let fed_signal: S;
        let progress: SrcProgress;
        if identity {
            proof {
                p_rendered = metered;
                p_input = g.block;
            }
            let outcome = state.src.process(
                metered,
                i,
                state.scratch.as_slice(),
                &mut state.parked,
                room,
            );
            fed_signal = outcome.0;
            progress = outcome.1;
        } else {
            let (rendered, input) = metered.render(i, &state.render, &state.scratch);
            proof {
                p_rendered = rendered;
                p_input = input@;
                assert(call_ensures(
                    S::render,
                    (shown, i, &start.render, &start.scratch),
                    (rendered, input),
                ));
                assert(renders(shown, i, g.render, g.block, p_rendered, p_input));
            }
            let outcome = state.src.process(
                rendered,
                i,
                input.as_slice(),
                &mut state.parked,
                room,
            );
            fed_signal = outcome.0;
            progress = outcome.1;
        }
        let ghost end = state.src.feed(progress.consumed as nat, state.parked@);
        if silent {
            state.parked.clear();
        }
        proof {
            let then = self.model().groups;
            let p = SupplyPath::<T, S> {
                metered: shown,
                rendered: p_rendered,
                input: p_input,
                end,
            };
            assert(self.groups@[i as int].wf());
            assert(then =~= groups.update(i as int, then[i as int]));
            assert(start.src.feed(0, start.parked@) =~= feed_of(g));
            assert(then[i as int].parked =~= (if silent {
                Seq::empty()
            } else {
                end.output
            }));
            assert(supply_path(p, first, g, i as int, idle, silent, fed_signal, then[i as int]));
        }
        fed_signal
    }

    fn supply_groups<S: Signal<T>>(&mut self, signal: S) -> (r: S)
        requires
            old(self).wf(),
        ensures
            final(self).wf(),
            final(self).max_block_frames == old(self).max_block_frames,
            final(self).silence == old(self).silence,
            final(self).muted == old(self).muted,
            final(self).outputs == old(self).outputs,
            final(self).groups@.len() == old(self).groups@.len(),
            supplied_upto(
                signal,
                old(self).model(),
                old(self).model().groups,
                old(self).max_block_frames,
                old(self).groups@.len() as int,
                r,
                final(self).model().groups,
            ),
    {
        let solo_active = self.solo_active();
        let muted = self.muted;
        let count: usize = self.groups.len();
        let ghost first = signal;
        let ghost m = self.model();
        let mut signal = signal;
        let mut i: usize = 0;
        while i < count
            invariant
                i <= count == self.groups@.len() == old(self).groups@.len(),
                self.wf(),
                self.max_block_frames == old(self).max_block_frames,
                self.silence == old(self).silence,
                self.muted == old(self).muted,
                self.outputs == old(self).outputs,
                m == old(self).model(),
                solo_active == any_solo(m.groups),
                muted == m.muted,
                forall|j: int| i <= j < count ==> self.groups@[j] == old(self).groups@[j],
                supplied_upto(
                    first,
                    m,
                    m.groups,
                    old(self).max_block_frames,
                    i as int,
                    signal,
                    self.model().groups,
                ),
            decreases count - i,
        {
            let ghost mid = (signal, self.model().groups);
            let ghost earlier = self.groups@;
            assert(m.groups[i as int] == old(self).groups@[i as int].model());
            let silent = muted || silenced(&self.groups[i], solo_active);
            assert(silent == silent_now(m, i as int));
            signal = self.supply(signal, i, silent);
            i = i + 1;
            proof {
                let then = self.model().groups;
                assert(supply_step(
                    mid.0,
                    mid.1,
                    i - 1,
                    old(self).max_block_frames,
                    silent_now(m, i - 1),
                    signal,
                    then,
                ));
                assert forall|j: int| i <= j < count implies self.groups@[j] == old(
                    self).groups@[j] by {
                    assert(earlier[j] == old(self).groups@[j]);
                }
            }
        }
        signal
    }

    fn limit_outputs<S: Signal<T>>(&mut self, signal: S) -> (r: S)
        requires
            old(self).wf(),
        ensures
            final(self).wf(),
            final(self).max_block_frames == old(self).max_block_frames,
            final(self).silence == old(self).silence,
            final(self).muted == old(self).muted,
            final(self).groups == old(self).groups,
            final(self).outputs@.len() == old(self).outputs@.len(),
            limited_upto(
                signal,
                old(self).model().outputs,
                old(self).max_block_frames,
                old(self).outputs@.len() as int,
                r,
                final(self).model().outputs,
            ),
    {
        let ghost first = signal;
        let ghost outputs = self.model().outputs;
        let mut signal = signal;
        let idle: usize = self.max_block_frames;
        let count: usize = self.outputs.len();
        let mut o: usize = 0;
        while o < count
            invariant
                o <= count == self.outputs@.len() == old(self).outputs@.len(),
                self.wf(),
                self.max_block_frames == old(self).max_block_frames == idle,
                self.silence == old(self).silence,
                self.muted == old(self).muted,
                self.groups == old(self).groups,
                outputs == old(self).model().outputs,
                limited_upto(first, outputs, idle, o as int, signal, self.model().outputs),
            decreases count - o,
        {
            let ghost mid = (signal, self.model().outputs);
            let ghost out = mid.1[o as int];
            assert(self.outputs@[o as int].wf());
            let filled: usize = self.outputs[o].filled;
            let block = prefix_of(self.outputs[o].accum.as_slice(), filled);
            let ghost asked = block;
            let (limited, safe) = signal.limit(o, block);
            assert(call_ensures(S::limit, (mid.0, o, asked), (limited, safe)));
            let ghost answer = (limited, safe@);
            assert(limits(
                mid.0,
                o,
                out.accum.take(out.filled as int),
                answer.0,
                answer.1,
            ));
            overwrite(&mut self.outputs[o].accum, &safe, filled);
            let played = prefix_of(self.outputs[o].accum.as_slice(), filled);
            let ghost shown = played;
            signal = limited.meter_output(o, &played, idle);
            o = o + 1;
            proof {
                let then = self.model().outputs;
                assert(call_ensures(
                    S::meter_output,
                    (answer.0, (o - 1) as usize, &shown, idle),
                    signal,
                ));
                assert(meters_output(
                    answer.0,
                    (o - 1) as usize,
                    then[o - 1].accum.take(out.filled as int),
                    idle,
                    signal,
                ));
                assert(then =~= mid.1.update(
                    o - 1,
                    OutputView { accum: overlaid(out.accum, answer.1, out.filled as int), ..out },
                ));
                assert(limit_step(mid.0, mid.1, o - 1, idle, signal, then));
            }
        }
        signal
    }

    /// One tick, with the outputs in `blocked` handing nothing over: what they
    /// would have played stays parked. Levels are followed and ducking is
    /// applied on all groups before the audio of any goes on, so no group
    /// hears a trigger that was ducked on the same tick.
    pub fn mix_tick_gated<S: Signal<T>, F: Fn(T, T) -> T>(
        &mut self,
        signal: S,
        plus: &F,
        blocked: &[OutputId],
    ) -> (r: S)
        requires
            old(self).wf(),
            forall|a: T, b: T| call_requires(*plus, (a, b)),
        ensures
            final(self).wf(),
            final(self).max_block_frames == old(self).max_block_frames,
            final(self).silence == old(self).silence,
            ticked(
                signal,
                *plus,
                old(self).model(),
                old(self).max_block_frames,
                blocked@,
                r,
                final(self).model(),
            ),
    {
        let ghost first = signal;
        let ghost before = self.model();
        let ghost idle = self.max_block_frames;
        let ghost groups = before.groups.len() as int;
        let ghost outputs = before.outputs.len() as int;
        let silent = self.quiet_groups();
        let ghost quiet = silent@;
        let signal = self.follow_groups(signal);
        let ghost after_follow = signal;
        let signal = self.duck_groups(signal);
        let ghost after_duck = signal;
        let ghost at_duck = self.model();
        let ghost blocks = blocks_of(at_duck.groups);
        let signal = self.supply_groups(signal);
        let ghost after_supply = signal;
        let ghost supply = self.model().groups;
        proof {
            lemma_silence_ignores_blocks(before, at_duck, blocks);
            lemma_supply_by_silence(
                after_duck,
                at_duck,
                before,
                at_duck.groups,
                idle,
                groups,
                after_supply,
                supply,
            );
        }
        self.emit(plus, &silent, blocked);
        let ghost emitted = self.model().outputs;
        let ghost at_emit = self.model().groups;
        let signal = self.limit_outputs(signal);
        proof {
            let p = TickPath::<T, S> {
                followed: after_follow,
                ducked: after_duck,
                blocks,
                supplied: after_supply,
                supply,
                emitted,
            };
            assert forall|o: int| 0 <= o < outputs implies advanced(
                *plus,
                drained(p.supply, quiet, before.outputs, blocked@, o),
                quiet,
                before.outputs[o],
                blocked@,
                #[trigger] p.emitted[o],
            ) by {}
            assert(tick_path(p, first, *plus, before, idle, blocked@, signal, self.model()));
        }
        signal
    }

    /// One tick with no output blocked.
    pub fn mix_tick<S: Signal<T>, F: Fn(T, T) -> T>(&mut self, signal: S, plus: &F) -> (r: S)
        requires
            old(self).wf(),
            forall|a: T, b: T| call_requires(*plus, (a, b)),
        ensures
            final(self).wf(),
            final(self).max_block_frames == old(self).max_block_frames,
            final(self).silence == old(self).silence,
            ticked(
                signal,
                *plus,
                old(self).model(),
                old(self).max_block_frames,
                Seq::empty(),
                r,
                final(self).model(),
            ),
    {
        let none: Vec<OutputId> = Vec::new();
        assert(none@ =~= Seq::<OutputId>::empty());
        self.mix_tick_gated(signal, plus, none.as_slice())
    }

    /// Hands over what an output has to play, as far as `buf` has room, and
    /// clears the output. Returns how many samples were written; where there
    /// is no such output, none.
    pub fn take_output(&mut self, output: OutputId, buf: &mut Vec<T>) -> (r: usize)
        requires
            old(self).wf(),
        ensures
            final(self).wf(),
            final(self).groups == old(self).groups,
            final(self).muted == old(self).muted,
            final(self).silence == old(self).silence,
            final(self).max_block_frames == old(self).max_block_frames,
            final(buf)@.len() == old(buf)@.len(),
            match output_at(old(self).model().outputs, output, 0) {
                None => {
                    &&& r == 0
                    &&& final(buf)@ == old(buf)@
                    &&& final(self).model() == old(self).model()
                },
                Some(o) => {
                    let out = old(self).model().outputs[o];
                    &&& r == if out.filled <= old(buf)@.len() {
                        out.filled
                    } else {
                        old(buf)@.len()
                    }
                    &&& final(buf)@ == out.accum.take(r as int) + old(buf)@.skip(r as int)
                    &&& final(self).model() == (MixerView {
                        outputs: old(self).model().outputs.update(
                            o,
                            taken(out, old(self).silence),
                        ),
                        ..old(self).model()
                    })
                },
            },
    {
        let o = match self.find_output(output) {
            Some(o) => o,
            None => {
                return 0;
            },
        };
        let ghost before = self.model().outputs;
        let ghost out = before[o as int];
        assert(self.outputs@[o as int].wf());
        let filled: usize = self.outputs[o].filled;
        let n: usize = if filled <= buf.len() {
            filled
        } else {
            buf.len()
        };
        let mut s: usize = 0;
        while s < n
            invariant
                s <= n <= filled,
                n <= buf@.len() == old(buf)@.len(),
                *self == *old(self),
                o < self.outputs@.len(),
                filled <= self.outputs@[o as int].accum@.len(),
                out == self.outputs@[o as int].model(),
                forall|k: int| 0 <= k < s ==> buf@[k] == out.accum[k],
                forall|k: int| s <= k < buf@.len() ==> buf@[k] == old(buf)@[k],
            decreases n - s,
        {
            let sample = self.outputs[o].accum[s];
            buf[s] = sample;
            s = s + 1;
        }
        assert(buf@ =~= out.accum.take(n as int) + old(buf)@.skip(n as int));
        let silence = self.silence;
        clear(&mut self.outputs[o].accum, filled, silence);
        self.outputs[o].filled = 0;
        assert(self.outputs@[o as int].model().accum =~= taken(out, old(self).silence).accum);
        assert(self.model().outputs =~= before.update(o as int, self.outputs@[o as int].model()));
        n
    }
}

proof fn lemma_group_at_ignores_blocks<T>(
    groups: Seq<GroupView<T>>,
    blocks: Seq<Seq<T>>,
    id: GroupId,
    from: int,
)
    requires
        0 <= from,
    ensures
        group_at(with_blocks(groups, blocks), id, from) == group_at(groups, id, from),
    decreases groups.len() - from,
{
    if from < groups.len() {
        lemma_group_at_ignores_blocks(groups, blocks, id, from + 1);
    }
}

proof fn lemma_solo_ignores_blocks<T>(groups: Seq<GroupView<T>>, blocks: Seq<Seq<T>>)
    ensures
        any_solo(with_blocks(groups, blocks)) == any_solo(groups),
{
    let other = with_blocks(groups, blocks);
    if any_solo(groups) {
        let k = choose|k: int| 0 <= k < groups.len() && (#[trigger] groups[k]).solo;
        assert(other[k].solo);
    }
    if any_solo(other) {
        let k = choose|k: int| 0 <= k < other.len() && (#[trigger] other[k]).solo;
        assert(groups[k].solo);
    }
}

proof fn lemma_trigger_ignores_blocks<T>(groups: Seq<GroupView<T>>, blocks: Seq<Seq<T>>, i: int)
    requires
        0 <= i < groups.len(),
    ensures
        duck_trigger(with_blocks(groups, blocks), i) == duck_trigger(groups, i),
{
    lemma_solo_ignores_blocks(groups, blocks);
    match groups[i].duck {
        Some(duck) => {
            lemma_group_at_ignores_blocks(groups, blocks, duck.trigger, 0);
            lemma_group_at_is_inside(groups, duck.trigger, 0);
        },
        None => {},
    }
}

proof fn lemma_group_at_is_inside<T>(groups: Seq<GroupView<T>>, id: GroupId, from: int)
    requires
        0 <= from,
    ensures
        group_at(groups, id, from) matches Some(i) ==> from <= i < groups.len(),
    decreases groups.len() - from,
{
    if from < groups.len() {
        lemma_group_at_is_inside(groups, id, from + 1);
    }
}

proof fn lemma_silence_ignores_blocks<T>(m: MixerView<T>, other: MixerView<T>, blocks: Seq<Seq<T>>)
    requires
        other.muted == m.muted,
        other.groups == with_blocks(m.groups, blocks),
    ensures
        forall|i: int| 0 <= i < m.groups.len() ==> silent_now(other, i) == silent_now(m, i),
{
    lemma_solo_ignores_blocks(m.groups, blocks);
}

/// Who supplies what depends on a mixer only by who is silent in it.
proof fn lemma_supply_by_silence<T, S: Signal<T>>(
    s: S,
    m: MixerView<T>,
    other: MixerView<T>,
    groups: Seq<GroupView<T>>,
    idle_frames: usize,
    n: int,
    after: S,
    then: Seq<GroupView<T>>,
)
    requires
        n <= other.groups.len(),
        supplied_upto(s, m, groups, idle_frames, n, after, then),
        forall|i: int| 0 <= i < other.groups.len() ==> silent_now(m, i) == silent_now(other, i),
    ensures
        supplied_upto(s, other, groups, idle_frames, n, after, then),
    decreases n,
{
    if n > 0 {
        let mid = choose|mid: (S, Seq<GroupView<T>>)|
            #![trigger supply_step(mid.0, mid.1, n - 1, idle_frames, silent_now(m, n - 1), after, then)]
            supplied_upto(s, m, groups, idle_frames, n - 1, mid.0, mid.1) && supply_step(
                mid.0,
                mid.1,
                n - 1,
                idle_frames,
                silent_now(m, n - 1),
                after,
                then,
            );
        assert(supply_step(
            mid.0,
            mid.1,
            n - 1,
            idle_frames,
            silent_now(other, n - 1),
            after,
            then,
        ));
        lemma_supply_by_silence(s, m, other, groups, idle_frames, n - 1, mid.0, mid.1);
    }
}

/// What a group has parked is never lost when outputs advance: it leaves from
/// the front, and the rest stays in order.
pub proof fn parked_audio_leaves_in_order<T>(
    groups: Seq<GroupView<T>>,
    quiet: Seq<bool>,
    outputs: Seq<OutputView<T>>,
    blocked: Seq<OutputId>,
    n: int,
    i: int,
)
    requires
        0 <= i < groups.len(),
    ensures
        drained(groups, quiet, outputs, blocked, n).len() == groups.len(),
        exists|k: int|
            0 <= k <= groups[i].parked.len() && drained(groups, quiet, outputs, blocked, n)[i] == (
            GroupView { parked: #[trigger] groups[i].parked.skip(k), ..groups[i] }),
    decreases n,
{
    if n <= 0 {
        assert(groups[i].parked.skip(0) =~= groups[i].parked);
    } else {
        parked_audio_leaves_in_order(groups, quiet, outputs, blocked, n - 1, i);
        let before = drained(groups, quiet, outputs, blocked, n - 1);
        let span = advance_of(before, quiet, outputs[n - 1], blocked);
        let k = choose|k: int|
            0 <= k <= groups[i].parked.len() && before[i] == (GroupView {
                parked: #[trigger] groups[i].parked.skip(k),
                ..groups[i]
            });
        let more = share(before[i], outputs[n - 1].id, span) as int;
        assert(groups[i].parked.skip(k).skip(more) =~= groups[i].parked.skip(k + more));
        assert(drained(groups, quiet, outputs, blocked, n)[i] == (GroupView {
            parked: groups[i].parked.skip(k + more),
            ..groups[i]
        }));
    }
}

/// A blocked output hands nothing over and takes nothing from its groups:
/// whatever they had parked is still there.
pub proof fn a_blocked_output_parks_everything<T>(
    groups: Seq<GroupView<T>>,
    quiet: Seq<bool>,
    outputs: Seq<OutputView<T>>,
    blocked: Seq<OutputId>,
    n: int,
    i: int,
)
    requires
        0 <= i < groups.len(),
        n <= outputs.len(),
        blocked.contains(groups[i].output),
    ensures
        drained(groups, quiet, outputs, blocked, n).len() == groups.len(),
        drained(groups, quiet, outputs, blocked, n)[i] == groups[i],
        forall|o: int|
            0 <= o < outputs.len() && (#[trigger] outputs[o]).id == groups[i].output
                ==> filled_after(drained(groups, quiet, outputs, blocked, o), quiet, outputs[o], blocked) == 0,
    decreases n,
{
    if n > 0 {
        a_blocked_output_parks_everything(groups, quiet, outputs, blocked, n - 1, i);
        let before = drained(groups, quiet, outputs, blocked, n - 1);
        let out = outputs[n - 1];
        let span = advance_of(before, quiet, out, blocked);
        assert(share(before[i], out.id, span) == 0);
        assert(before[i].parked.skip(0) =~= before[i].parked);
    }
}

proof fn lemma_least_parked<T>(
    groups: Seq<GroupView<T>>,
    quiet: Seq<bool>,
    id: OutputId,
    full: bool,
    n: int,
    i: int,
)
    requires
        0 <= i < n <= groups.len(),
        gates(groups[i], id, full, quiet[i]),
    ensures
        least_parked(groups, quiet, id, full, n) matches Some(least) && least <= groups[i].parked.len(),
    decreases n,
{
    if i < n - 1 {
        lemma_least_parked(groups, quiet, id, full, n - 1, i);
    }
}

proof fn lemma_least_is_some_gate<T>(
    groups: Seq<GroupView<T>>,
    quiet: Seq<bool>,
    id: OutputId,
    full: bool,
    n: int,
)
    requires
        n <= groups.len(),
    ensures
        least_parked(groups, quiet, id, full, n) matches Some(least) ==> exists|i: int|
            0 <= i < n && gates(#[trigger] groups[i], id, full, quiet[i]) && groups[i].parked.len() == least,
    decreases n,
{
    if n > 0 {
        lemma_least_is_some_gate(groups, quiet, id, full, n - 1);
        let before = least_parked(groups, quiet, id, full, n - 1);
        if gates(groups[n - 1], id, full, quiet[n - 1]) {
            assert(gates(groups[n - 1], id, full, quiet[n - 1]));
        }
        if before is Some {
            let i = choose|i: int|
                0 <= i < n - 1 && gates(#[trigger] groups[i], id, full, quiet[i]) && groups[i].parked.len()
                    == before->0;
            assert(gates(groups[i], id, full, quiet[i]));
        }
    }
}

/// An output never advances over audio that a group still owes: every group
/// with something parked supplies the whole span, and while one has audio on
/// its way but none parked the output waits, unless the wait would cost
/// another group its audio. A silent group is owed nothing.
pub proof fn no_span_is_owed<T>(
    groups: Seq<GroupView<T>>,
    quiet: Seq<bool>,
    out: OutputView<T>,
    i: int,
)
    requires
        0 <= i < groups.len(),
        groups[i].output == out.id,
        !quiet[i],
    ensures
        groups[i].parked.len() > 0 ==> span_of(groups, quiet, out) <= groups[i].parked.len(),
        has_in_flight(groups[i]) && !parking_full(groups, out.id) ==> span_of(groups, quiet, out)
            <= groups[i].parked.len(),
{
    let full = parking_full(groups, out.id);
    if gates(groups[i], out.id, full, quiet[i]) {
        lemma_least_parked(groups, quiet, out.id, full, groups.len() as int, i);
    }
}

/// A group with nothing on its way does not hold its output back: where every
/// group that can be heard has audio parked or none at all, and one has, the
/// output advances.
pub proof fn an_idle_group_does_not_stall<T>(
    groups: Seq<GroupView<T>>,
    quiet: Seq<bool>,
    out: OutputView<T>,
    i: int,
)
    requires
        0 <= i < groups.len(),
        groups[i].output == out.id,
        !quiet[i],
        groups[i].parked.len() > 0,
        out.accum.len() > 0,
        forall|j: int|
            0 <= j < groups.len() && (#[trigger] groups[j]).output == out.id && !quiet[j]
                && groups[j].parked.len() == 0 ==> !has_in_flight(groups[j]),
    ensures
        span_of(groups, quiet, out) > 0,
{
    let full = parking_full(groups, out.id);
    lemma_least_parked(groups, quiet, out.id, full, groups.len() as int, i);
    lemma_least_is_some_gate(groups, quiet, out.id, full, groups.len() as int);
}

/// A group that stopped being fed cannot hold its output back for good: as
/// soon as another has a block parked, the output advances.
pub proof fn a_full_group_is_not_held_back<T>(
    groups: Seq<GroupView<T>>,
    quiet: Seq<bool>,
    out: OutputView<T>,
    i: int,
)
    requires
        0 <= i < groups.len(),
        groups[i].output == out.id,
        !quiet[i],
        groups[i].parked.len() > 0,
        2 * groups[i].parked.len() >= groups[i].parking,
        out.accum.len() > 0,
    ensures
        span_of(groups, quiet, out) > 0,
{
    assert(parking_full(groups, out.id));
    lemma_least_parked(groups, quiet, out.id, true, groups.len() as int, i);
    lemma_least_is_some_gate(groups, quiet, out.id, true, groups.len() as int);
}

proof fn lemma_least_but_for<T>(
    groups: Seq<GroupView<T>>,
    other: Seq<GroupView<T>>,
    quiet: Seq<bool>,
    id: OutputId,
    full: bool,
    n: int,
    i: int,
)
    requires
        n <= groups.len() == other.len(),
        0 <= i < groups.len(),
        quiet[i],
        forall|j: int| 0 <= j < groups.len() && j != i ==> other[j] == groups[j],
    ensures
        least_parked(other, quiet, id, full, n) == least_parked(groups, quiet, id, full, n),
    decreases n,
{
    if n > 0 {
        lemma_least_but_for(groups, other, quiet, id, full, n - 1, i);
    }
}

/// A silent group never gates its output: whatever is still on its way in it,
/// the output advances as far as it would without.
pub proof fn a_silent_group_never_gates<T>(
    groups: Seq<GroupView<T>>,
    quiet: Seq<bool>,
    out: OutputView<T>,
    i: int,
    pending: Seq<T>,
    waiting: Seq<T>,
)
    requires
        0 <= i < groups.len(),
        quiet[i],
    ensures
        !gates(groups[i], out.id, parking_full(groups, out.id), quiet[i]),
        span_of(groups.update(i, GroupView { pending, waiting, ..groups[i] }), quiet, out)
            == span_of(groups, quiet, out),
{
    let other = groups.update(i, GroupView { pending, waiting, ..groups[i] });
    let id = out.id;
    let full = parking_full(groups, id);
    if full {
        let k = choose|k: int|
            0 <= k < groups.len() && (#[trigger] groups[k]).output == id && 2
                * groups[k].parked.len() >= groups[k].parking;
        assert(other[k].output == id && 2 * other[k].parked.len() >= other[k].parking);
    }
    if parking_full(other, id) {
        let k = choose|k: int|
            0 <= k < other.len() && (#[trigger] other[k]).output == id && 2
                * other[k].parked.len() >= other[k].parking;
        assert(groups[k].output == id && 2 * groups[k].parked.len() >= groups[k].parking);
    }
    lemma_least_but_for(groups, other, quiet, id, full, groups.len() as int, i);
}

/// A silent group puts nothing into its output.
pub proof fn a_silent_group_is_not_heard<T, S: Signal<T>>(
    s: S,
    g: GroupView<T>,
    i: int,
    idle_frames: usize,
    after: S,
    then: GroupView<T>,
    id: OutputId,
    span: nat,
)
    requires
        supplied(s, g, i, idle_frames, true, after, then),
    ensures
        share(then, id, span) == 0,
{
}

/// A muted group is silent, soloed or not; and while any group is soloed, the
/// others are silent on every output.
pub proof fn mute_wins_over_solo<T>(m: MixerView<T>, i: int, j: int)
    requires
        0 <= i < m.groups.len(),
        0 <= j < m.groups.len(),
    ensures
        m.groups[i].mute ==> silent_now(m, i),
        m.groups[j].solo && !m.groups[i].solo ==> silent_now(m, i),
        m.muted ==> silent_now(m, i),
{
}

/// A silent trigger ducks nobody.
pub proof fn a_silent_group_ducks_nobody<T>(groups: Seq<GroupView<T>>, i: int, t: int)
    requires
        0 <= i < groups.len(),
        0 <= t < groups.len(),
        is_silenced(groups[t].mute, groups[t].solo, any_solo(groups)),
    ensures
        duck_trigger(groups, i) != Some(t),
{
}

/// Two groups have the same settings: they differ in the audio they hold, if
/// at all.
pub open spec fn same_settings<T>(a: GroupView<T>, b: GroupView<T>) -> bool {
    a == (GroupView {
        block: a.block,
        pending: a.pending,
        waiting: a.waiting,
        parked: a.parked,
        ..b
    })
}

pub(crate) proof fn lemma_supplied_groups<T, S: Signal<T>>(
    s: S,
    m: MixerView<T>,
    groups: Seq<GroupView<T>>,
    idle_frames: usize,
    n: int,
    after: S,
    then: Seq<GroupView<T>>,
    i: int,
)
    requires
        n <= groups.len(),
        supplied_upto(s, m, groups, idle_frames, n, after, then),
        0 <= i < groups.len(),
    ensures
        then.len() == groups.len(),
        same_settings(then[i], groups[i]),
        i < n && silent_now(m, i) ==> then[i].parked.len() == 0,
    decreases n,
{
    if n > 0 {
        let mid = choose|mid: (S, Seq<GroupView<T>>)|
            #![trigger supply_step(mid.0, mid.1, n - 1, idle_frames, silent_now(m, n - 1), after, then)]
            supplied_upto(s, m, groups, idle_frames, n - 1, mid.0, mid.1) && supply_step(
                mid.0,
                mid.1,
                n - 1,
                idle_frames,
                silent_now(m, n - 1),
                after,
                then,
            );
        lemma_supplied_groups(s, m, groups, idle_frames, n - 1, mid.0, mid.1, i);
    }
}

pub(crate) proof fn lemma_drained_settings<T>(
    groups: Seq<GroupView<T>>,
    quiet: Seq<bool>,
    outputs: Seq<OutputView<T>>,
    blocked: Seq<OutputId>,
    n: int,
    i: int,
)
    requires
        0 <= i < groups.len(),
    ensures
        drained(groups, quiet, outputs, blocked, n).len() == groups.len(),
        same_settings(drained(groups, quiet, outputs, blocked, n)[i], groups[i]),
        groups[i].parked.len() == 0 ==> drained(groups, quiet, outputs, blocked, n)[i].parked.len() == 0,
{
    parked_audio_leaves_in_order(groups, quiet, outputs, blocked, n, i);
}

pub(crate) proof fn lemma_limited_outputs<T, S: Signal<T>>(
    s: S,
    outputs: Seq<OutputView<T>>,
    idle_frames: usize,
    n: int,
    after: S,
    then: Seq<OutputView<T>>,
    o: int,
)
    requires
        n <= outputs.len(),
        limited_upto(s, outputs, idle_frames, n, after, then),
        0 <= o < outputs.len(),
    ensures
        then.len() == outputs.len(),
        then[o] == (OutputView { accum: then[o].accum, ..outputs[o] }),
        then[o].accum.len() == outputs[o].accum.len(),
        forall|k: int|
            outputs[o].filled <= k < outputs[o].accum.len() ==> #[trigger] then[o].accum[k]
                == outputs[o].accum[k],
    decreases n,
{
    if n > 0 {
        let mid = choose|mid: (S, Seq<OutputView<T>>)|
            #![trigger limit_step(mid.0, mid.1, n - 1, idle_frames, after, then)]
            limited_upto(s, outputs, idle_frames, n - 1, mid.0, mid.1) && limit_step(
                mid.0,
                mid.1,
                n - 1,
                idle_frames,
                after,
                then,
            );
        lemma_limited_outputs(s, outputs, idle_frames, n - 1, mid.0, mid.1, o);
        lemma_limited_outputs(s, outputs, idle_frames, n - 1, mid.0, mid.1, n - 1);
    }
}

/// A tick changes no settings: groups and outputs are the same afterwards, but
/// for the audio that they hold.
pub proof fn a_tick_changes_no_settings<T, S: Signal<T>, F: Fn(T, T) -> T>(
    s: S,
    plus: F,
    before: MixerView<T>,
    idle_frames: usize,
    blocked: Seq<OutputId>,
    after: S,
    then: MixerView<T>,
    i: int,
    o: int,
)
    requires
        ticked(s, plus, before, idle_frames, blocked, after, then),
        0 <= i < before.groups.len(),
        0 <= o < before.outputs.len(),
    ensures
        then.muted == before.muted,
        then.groups.len() == before.groups.len(),
        same_settings(then.groups[i], before.groups[i]),
        then.outputs.len() == before.outputs.len(),
        then.outputs[o].id == before.outputs[o].id,
        then.outputs[o].format == before.outputs[o].format,
        then.outputs[o].accum.len() == before.outputs[o].accum.len(),
{
    let quiet = quiet_in(before);
    let p = choose|p: TickPath<T, S>| #[trigger]
        tick_path(p, s, plus, before, idle_frames, blocked, after, then);
    let groups = with_blocks(before.groups, p.blocks);
    lemma_supplied_groups(
        p.ducked,
        before,
        groups,
        idle_frames,
        before.groups.len() as int,
        p.supplied,
        p.supply,
        i,
    );
    lemma_drained_settings(p.supply, quiet, before.outputs, blocked, before.outputs.len() as int, i);
    lemma_limited_outputs(
        p.supplied,
        p.emitted,
        idle_frames,
        before.outputs.len() as int,
        after,
        then.outputs,
        o,
    );
    assert(advanced(
        plus,
        drained(p.supply, quiet, before.outputs, blocked, o),
        quiet,
        before.outputs[o],
        blocked,
        p.emitted[o],
    ));
}

/// A blocked output has nothing to hand over after a tick.
pub proof fn a_blocked_output_plays_nothing<T, S: Signal<T>, F: Fn(T, T) -> T>(
    s: S,
    plus: F,
    before: MixerView<T>,
    idle_frames: usize,
    blocked: Seq<OutputId>,
    after: S,
    then: MixerView<T>,
    o: int,
)
    requires
        ticked(s, plus, before, idle_frames, blocked, after, then),
        0 <= o < before.outputs.len(),
        blocked.contains(before.outputs[o].id),
    ensures
        then.outputs[o].filled == 0,
{
    let quiet = quiet_in(before);
    let p = choose|p: TickPath<T, S>| #[trigger]
        tick_path(p, s, plus, before, idle_frames, blocked, after, then);
    lemma_limited_outputs(
        p.supplied,
        p.emitted,
        idle_frames,
        before.outputs.len() as int,
        after,
        then.outputs,
        o,
    );
    assert(advanced(
        plus,
        drained(p.supply, quiet, before.outputs, blocked, o),
        quiet,
        before.outputs[o],
        blocked,
        p.emitted[o],
    ));
}

proof fn lemma_nothing_parked<T>(
    groups: Seq<GroupView<T>>,
    quiet: Seq<bool>,
    id: OutputId,
    full: bool,
    n: int,
)
    requires
        n <= groups.len(),
        forall|i: int|
            0 <= i < groups.len() && (#[trigger] groups[i]).output == id ==> groups[i].parked.len()
                == 0,
    ensures
        least_parked(groups, quiet, id, full, n) matches Some(least) ==> least == 0,
    decreases n,
{
    if n > 0 {
        lemma_nothing_parked(groups, quiet, id, full, n - 1);
    }
}

/// An output plays nothing when all its groups are silent, whether the mixer is
/// muted, or each of them, or another group is soloed: what it had to hand over
/// before the tick is all that it has after it.
pub proof fn silent_groups_play_nothing<T, S: Signal<T>, F: Fn(T, T) -> T>(
    s: S,
    plus: F,
    before: MixerView<T>,
    idle_frames: usize,
    blocked: Seq<OutputId>,
    after: S,
    then: MixerView<T>,
    o: int,
)
    requires
        ticked(s, plus, before, idle_frames, blocked, after, then),
        0 <= o < before.outputs.len(),
        forall|i: int|
            0 <= i < before.groups.len() && (#[trigger] before.groups[i]).output
                == before.outputs[o].id ==> silent_now(before, i),
    ensures
        then.outputs[o].filled == if blocked.contains(before.outputs[o].id) {
            0
        } else {
            before.outputs[o].filled
        },
{
    let quiet = quiet_in(before);
    let p = choose|p: TickPath<T, S>| #[trigger]
        tick_path(p, s, plus, before, idle_frames, blocked, after, then);
    let id = before.outputs[o].id;
    let groups = with_blocks(before.groups, p.blocks);
    let at = drained(p.supply, quiet, before.outputs, blocked, o);
    if groups.len() > 0 {
        lemma_supplied_groups(
            p.ducked,
            before,
            groups,
            idle_frames,
            before.groups.len() as int,
            p.supplied,
            p.supply,
            0,
        );
        lemma_drained_settings(p.supply, quiet, before.outputs, blocked, o, 0);
    } else {
        lemma_drained_is_empty(p.supply, quiet, before.outputs, blocked, o);
    }
    assert forall|i: int| 0 <= i < at.len() && (#[trigger] at[i]).output
        == id implies at[i].parked.len() == 0 by {
        lemma_supplied_groups(
            p.ducked,
            before,
            groups,
            idle_frames,
            before.groups.len() as int,
            p.supplied,
            p.supply,
            i,
        );
        lemma_drained_settings(p.supply, quiet, before.outputs, blocked, o, i);
        assert(before.groups[i].output == id);
    }
    lemma_nothing_parked(at, quiet, id, parking_full(at, id), at.len() as int);
    assert(advanced(plus, at, quiet, before.outputs[o], blocked, p.emitted[o]));
    lemma_limited_outputs(
        p.supplied,
        p.emitted,
        idle_frames,
        before.outputs.len() as int,
        after,
        then.outputs,
        o,
    );
}

proof fn lemma_drained_is_empty<T>(
    groups: Seq<GroupView<T>>,
    quiet: Seq<bool>,
    outputs: Seq<OutputView<T>>,
    blocked: Seq<OutputId>,
    n: int,
)
    ensures
        drained(groups, quiet, outputs, blocked, n).len() == groups.len(),
    decreases n,
{
    if n > 0 {
        lemma_drained_is_empty(groups, quiet, outputs, blocked, n - 1);
    }
}

/// A group that does not follow the master sounds the same wherever the master
/// stands.
pub proof fn an_independent_group_ignores_the_master<T, S: Signal<T>>(
    s: S,
    before: MixerView<T>,
    max_block_frames: nat,
    i: int,
    frames: Seq<T>,
    after: S,
    then: MixerView<T>,
    master: Float32,
)
    requires
        0 <= i < before.groups.len(),
        !before.groups[i].follow_master,
        pushed(s, before, max_block_frames, i, frames, after, then),
    ensures
        ({
            let moved = |m: MixerView<T>|
                MixerView {
                    groups: groups_after(m.groups, CommandView::SetMaster(master)),
                    ..m
                };
            pushed(s, moved(before), max_block_frames, i, frames, after, moved(then))
        }),
{
    let g = before.groups[i];
    let block = then.groups[i].block;
    let cmd = CommandView::SetMaster(master);
    let moved = groups_after(before.groups, cmd);
    assert(groups_after(then.groups, cmd) =~= moved.update(
        i,
        GroupView { block, ..moved[i] },
    ));
    let mid = choose|mid: (S, Seq<T>)|
        #![trigger filters(mid.0, i as usize, g.chain, mid.1, after, block)]
        fades(
            s,
            i as usize,
            g.gain,
            master_on(g),
            accepted_part(frames, g.channels, max_block_frames),
            mid.0,
            mid.1,
        ) && filters(mid.0, i as usize, g.chain, mid.1, after, block);
    assert(filters(mid.0, i as usize, moved[i].chain, mid.1, after, block));
}

/// An output advances as far as every group with a say can supply it, and no less:
/// some group has nothing more to give, or the output has no more room.
pub proof fn an_output_advances_as_far_as_it_can<T>(
    groups: Seq<GroupView<T>>,
    quiet: Seq<bool>,
    out: OutputView<T>,
    i: int,
)
    requires
        0 <= i < groups.len(),
        quiet.len() == groups.len(),
        gates(groups[i], out.id, parking_full(groups, out.id), quiet[i]),
    ensures
        span_of(groups, quiet, out) <= groups[i].parked.len(),
        span_of(groups, quiet, out) <= out.accum.len(),
        span_of(groups, quiet, out) == out.accum.len() || exists|k: int|
            0 <= k < groups.len() && gates(
                #[trigger] groups[k],
                out.id,
                parking_full(groups, out.id),
                quiet[k],
            ) && groups[k].parked.len() == span_of(groups, quiet, out),
{
    let full = parking_full(groups, out.id);
    lemma_least_parked(groups, quiet, out.id, full, groups.len() as int, i);
    lemma_least_is_some_gate(groups, quiet, out.id, full, groups.len() as int);
}

} // verus!
