//! How far each output advances on a tick, and what is summed into it.
//!
//! Groups that feed one output finish their resampler chunks on different
//! ticks. An output therefore advances only as far as every group with audio
//! on its way can supply; whoever is ahead parks the surplus for a tick.
use crate::mixer::{output_models, GroupView, Mixer, OutputView};
use crate::sample::OutputId;
use vstd::prelude::*;

verus! {

/// Whether a group that feeds the output has a whole block parked and can take
/// in no more.
pub open spec fn parking_full<T>(groups: Seq<GroupView<T>>, id: OutputId) -> bool {
    exists|i: int|
        0 <= i < groups.len() && (#[trigger] groups[i]).output == id && 2 * groups[i].parked.len()
            >= groups[i].parking
}

/// Something has gone into the group's resampler that has not come out.
pub open spec fn has_in_flight<T>(g: GroupView<T>) -> bool {
    g.pending.len() > 0 || g.waiting.len() > 0
}

/// Whether a group has a say in how far its output advances. One that is silent
/// has none, and neither has one with nothing on its way; nor has one whose
/// audio is only on its way, once another has no room left to wait for it.
pub open spec fn gates<T>(g: GroupView<T>, id: OutputId, full: bool, silent: bool) -> bool {
    g.output == id && !silent && (g.parked.len() > 0 || (has_in_flight(g) && !full))
}

/// The least that any gating group among the first `n` has parked. `quiet` says
/// who is silent.
pub open spec fn least_parked<T>(
    groups: Seq<GroupView<T>>,
    quiet: Seq<bool>,
    id: OutputId,
    full: bool,
    n: int,
) -> Option<nat>
    decreases n,
{
    if n <= 0 {
        None
    } else {
        let before = least_parked(groups, quiet, id, full, n - 1);
        let own = groups[n - 1].parked.len();
        if !gates(groups[n - 1], id, full, quiet[n - 1]) {
            before
        } else {
            match before {
                Some(least) if least <= own => Some(least),
                _ => Some(own),
            }
        }
    }
}

/// How far an output may advance: as far as every gating group can supply, and
/// no further than it has room for.
pub open spec fn span_of<T>(
    groups: Seq<GroupView<T>>,
    quiet: Seq<bool>,
    out: OutputView<T>,
) -> nat {
    match least_parked(groups, quiet, out.id, parking_full(groups, out.id), groups.len() as int) {
        None => 0,
        Some(least) => if least <= out.accum.len() {
            least
        } else {
            out.accum.len()
        },
    }
}

/// How far an output does advance: a blocked one not at all.
pub open spec fn advance_of<T>(
    groups: Seq<GroupView<T>>,
    quiet: Seq<bool>,
    out: OutputView<T>,
    blocked: Seq<OutputId>,
) -> nat {
    if blocked.contains(out.id) {
        0
    } else {
        span_of(groups, quiet, out)
    }
}

/// How much of a group's parked audio goes into a span of its output.
pub open spec fn share<T>(g: GroupView<T>, id: OutputId, span: nat) -> nat {
    if g.output != id {
        0
    } else if span <= g.parked.len() {
        span
    } else {
        g.parked.len()
    }
}

/// The groups after an output advanced: what was summed is gone, the rest
/// waits.
pub open spec fn after_span<T>(groups: Seq<GroupView<T>>, id: OutputId, span: nat) -> Seq<
    GroupView<T>,
> {
    Seq::new(
        groups.len(),
        |i: int|
            GroupView {
                parked: groups[i].parked.skip(share(groups[i], id, span) as int),
                ..groups[i]
            },
    )
}

/// The groups after the first `n` outputs advanced.
pub open spec fn drained<T>(
    groups: Seq<GroupView<T>>,
    quiet: Seq<bool>,
    outputs: Seq<OutputView<T>>,
    blocked: Seq<OutputId>,
    n: int,
) -> Seq<GroupView<T>>
    decreases n,
{
    if n <= 0 {
        groups
    } else {
        let before = drained(groups, quiet, outputs, blocked, n - 1);
        after_span(before, outputs[n - 1].id, advance_of(before, quiet, outputs[n - 1], blocked))
    }
}

/// What the first `n` groups put into position `s` of a span.
pub open spec fn terms_at<T>(
    groups: Seq<GroupView<T>>,
    id: OutputId,
    span: nat,
    s: int,
    n: int,
) -> Seq<T>
    decreases n,
{
    if n <= 0 {
        Seq::empty()
    } else {
        let before = terms_at(groups, id, span, s, n - 1);
        if s < share(groups[n - 1], id, span) {
            before.push(groups[n - 1].parked[s])
        } else {
            before
        }
    }
}

/// `end` is `start` with the terms added one after the other.
pub open spec fn adds<T, F: Fn(T, T) -> T>(plus: F, start: T, terms: Seq<T>, end: T) -> bool
    decreases terms.len(),
{
    if terms.len() == 0 {
        end == start
    } else {
        exists|mid: T|
            adds(plus, start, terms.drop_last(), mid) && #[trigger] call_ensures(
                plus,
                (mid, terms.last()),
                end,
            )
    }
}

/// An output after it advanced by a span that the groups supply.
pub open spec fn advanced<T, F: Fn(T, T) -> T>(
    plus: F,
    groups: Seq<GroupView<T>>,
    quiet: Seq<bool>,
    before: OutputView<T>,
    blocked: Seq<OutputId>,
    after: OutputView<T>,
) -> bool {
    let span = advance_of(groups, quiet, before, blocked);
    &&& after.id == before.id
    &&& after.format == before.format
    &&& after.accum.len() == before.accum.len()
    &&& after.filled == if blocked.contains(before.id) {
        0
    } else if span == 0 {
        before.filled
    } else {
        span
    }
    &&& forall|s: int|
        span <= s < before.accum.len() ==> #[trigger] after.accum[s] == before.accum[s]
    &&& forall|s: int|
        0 <= s < span ==> adds(
            plus,
            before.accum[s],
            terms_at(groups, before.id, span, s, groups.len() as int),
            #[trigger] after.accum[s],
        )
}

fn is_blocked(blocked: &[OutputId], id: OutputId) -> (r: bool)
    ensures
        r == blocked@.contains(id),
{
    let mut i: usize = 0;
    while i < blocked.len()
        invariant
            i <= blocked@.len(),
            forall|j: int| 0 <= j < i ==> blocked@[j] != id,
        decreases blocked@.len() - i,
    {
        if blocked[i] == id {
            assert(blocked@[i as int] == id);
            return true;
        }
        i = i + 1;
    }
    false
}

/// Drops the first `n` samples.
fn shift<T: Copy>(parked: &mut Vec<T>, n: usize)
    requires
        n <= old(parked)@.len(),
    ensures
        final(parked)@ == old(parked)@.skip(n as int),
{
    let len: usize = parked.len();
    let rest: usize = len - n;
    let mut k: usize = 0;
    while k < rest
        invariant
            k <= rest,
            rest + n == len == parked@.len() == old(parked)@.len(),
            forall|j: int| 0 <= j < k ==> parked@[j] == old(parked)@[j + n],
            forall|j: int| k <= j < len ==> parked@[j] == old(parked)@[j],
        decreases rest - k,
    {
        let sample = parked[k + n];
        parked[k] = sample;
        k = k + 1;
    }
    parked.truncate(rest);
    assert(parked@ =~= old(parked)@.skip(n as int));
}

/// Adds the first `n` parked samples to what an output has.
fn add_parked<T: Copy, F: Fn(T, T) -> T>(accum: &mut Vec<T>, parked: &Vec<T>, n: usize, plus: &F)
    requires
        n <= parked@.len(),
        n <= old(accum)@.len(),
        forall|a: T, b: T| call_requires(*plus, (a, b)),
    ensures
        final(accum)@.len() == old(accum)@.len(),
        forall|s: int|
            0 <= s < n ==> call_ensures(
                *plus,
                (old(accum)@[s], parked@[s]),
                #[trigger] final(accum)@[s],
            ),
        forall|s: int| n <= s < old(accum)@.len() ==> #[trigger] final(accum)@[s] == old(accum)@[s],
{
    let mut s: usize = 0;
    while s < n
        invariant
            s <= n,
            n <= parked@.len(),
            n <= accum@.len() == old(accum)@.len(),
            forall|a: T, b: T| call_requires(*plus, (a, b)),
            forall|k: int|
                0 <= k < s ==> call_ensures(
                    *plus,
                    (old(accum)@[k], parked@[k]),
                    #[trigger] accum@[k],
                ),
            forall|k: int| s <= k < accum@.len() ==> #[trigger] accum@[k] == old(accum)@[k],
        decreases n - s,
    {
        let before = accum[s];
        let sum = plus(before, parked[s]);
        accum[s] = sum;
        s = s + 1;
    }
}

proof fn lemma_adds_one_more<T, F: Fn(T, T) -> T>(plus: F, start: T, terms: Seq<T>, mid: T, x: T, end: T)
    requires
        adds(plus, start, terms, mid),
        call_ensures(plus, (mid, x), end),
    ensures
        adds(plus, start, terms.push(x), end),
{
    let all = terms.push(x);
    assert(all.drop_last() =~= terms);
    assert(all.last() == x);
}

impl<T: Copy> Mixer<T> {
    fn parking_is_full(&self, id: OutputId) -> (r: bool)
        requires
            self.wf(),
        ensures
            r == parking_full(self.model().groups, id),
    {
        let mut i: usize = 0;
        while i < self.groups.len()
            invariant
                self.wf(),
                i <= self.groups@.len(),
                forall|j: int|
                    0 <= j < i ==> !((#[trigger] self.model().groups[j]).output == id && 2
                        * self.model().groups[j].parked.len() >= self.model().groups[j].parking),
            decreases self.groups@.len() - i,
        {
            let g = &self.groups[i];
            assert(self.model().groups[i as int] == g.model());
            assert(self.groups@[i as int].wf());
            // Twice what is parked may not fit; what is free does.
            if g.output == id && g.parked.len() >= g.parking - g.parked.len() {
                assert(self.model().groups[i as int].output == id);
                return true;
            }
            i = i + 1;
        }
        false
    }

    /// How far an output may advance.
    fn span(&self, quiet: &Vec<bool>, o: usize) -> (r: usize)
        requires
            self.wf(),
            quiet@.len() == self.groups@.len(),
            o < self.outputs@.len(),
        ensures
            r == span_of(self.model().groups, quiet@, self.outputs@[o as int].model()),
            r <= self.outputs@[o as int].accum@.len(),
    {
        let id = self.outputs[o].id;
        let full = self.parking_is_full(id);
        let mut least: Option<usize> = None;
        let mut i: usize = 0;
        while i < self.groups.len()
            invariant
                self.wf(),
                quiet@.len() == self.groups@.len(),
                i <= self.groups@.len(),
                match least {
                    Some(n) => least_parked(self.model().groups, quiet@, id, full, i as int) == Some(
                        n as nat,
                    ),
                    None => least_parked(self.model().groups, quiet@, id, full, i as int) is None,
                },
            decreases self.groups@.len() - i,
        {
            let g = &self.groups[i];
            assert(self.groups@[i as int].wf());
            assert(self.model().groups[i as int] == g.model());
            let own: usize = g.parked.len();
            if g.output == id && !quiet[i] && (own > 0 || (g.src.has_audio_in_flight() && !full)) {
                match least {
                    Some(n) if n <= own => {},
                    _ => {
                        least = Some(own);
                    },
                }
            }
            i = i + 1;
        }
        let room: usize = self.outputs[o].accum.len();
        match least {
            None => 0,
            Some(n) => if n <= room {
                n
            } else {
                room
            },
        }
    }

    /// Sums a span of the groups that feed an output into it.
    fn sum_output<F: Fn(T, T) -> T>(&mut self, o: usize, span: usize, plus: &F)
        requires
            old(self).wf(),
            o < old(self).outputs@.len(),
            0 < span <= old(self).outputs@[o as int].accum@.len(),
            forall|a: T, b: T| call_requires(*plus, (a, b)),
        ensures
            final(self).wf(),
            final(self).muted == old(self).muted,
            final(self).silence == old(self).silence,
            final(self).max_block_frames == old(self).max_block_frames,
            final(self).model().groups == after_span(
                old(self).model().groups,
                old(self).outputs@[o as int].id,
                span as nat,
            ),
            final(self).outputs@.len() == old(self).outputs@.len(),
            forall|k: int|
                0 <= k < old(self).outputs@.len() && k != o ==> final(self).outputs@[k] == old(
                    self).outputs@[k],
            final(self).outputs@[o as int].id == old(self).outputs@[o as int].id,
            final(self).outputs@[o as int].format == old(self).outputs@[o as int].format,
            final(self).outputs@[o as int].filled == span,
            final(self).outputs@[o as int].accum@.len() == old(
                self).outputs@[o as int].accum@.len(),
            forall|s: int|
                span <= s < old(self).outputs@[o as int].accum@.len() ==> #[trigger] final(
                    self).outputs@[o as int].accum@[s] == old(self).outputs@[o as int].accum@[s],
            forall|s: int|
                0 <= s < span ==> adds(
                    *plus,
                    old(self).outputs@[o as int].accum@[s],
                    terms_at(
                        old(self).model().groups,
                        old(self).outputs@[o as int].id,
                        span as nat,
                        s,
                        old(self).groups@.len() as int,
                    ),
                    #[trigger] final(self).outputs@[o as int].accum@[s],
                ),
    {
        let id = self.outputs[o].id;
        let count: usize = self.groups.len();
        let ghost groups = self.model().groups;
        let ghost start = self.outputs@[o as int].accum@;
        let ghost all = self.outputs@;
        let mut i: usize = 0;
        while i < count
            invariant
                i <= count == self.groups@.len() == groups.len() == old(self).groups@.len(),
                self.wf(),
                old(self).wf(),
                groups == old(self).model().groups,
                o < all.len(),
                all[o as int].id == id,
                start == all[o as int].accum@,
                0 < span <= start.len(),
                forall|a: T, b: T| call_requires(*plus, (a, b)),
                self.muted == old(self).muted,
                self.silence == old(self).silence,
                self.max_block_frames == old(self).max_block_frames,
                self.outputs@.len() == all.len(),
                forall|k: int| 0 <= k < all.len() && k != o ==> self.outputs@[k] == all[k],
                self.outputs@[o as int].id == id,
                self.outputs@[o as int].format == all[o as int].format,
                self.outputs@[o as int].filled == all[o as int].filled,
                self.outputs@[o as int].accum@.len() == start.len(),
                forall|j: int| i <= j < count ==> self.groups@[j] == old(self).groups@[j],
                forall|j: int|
                    0 <= j < i ==> (#[trigger] self.groups@[j]).model() == after_span(
                        groups,
                        id,
                        span as nat,
                    )[j],
                forall|s: int|
                    span <= s < start.len() ==> #[trigger] self.outputs@[o as int].accum@[s]
                        == start[s],
                forall|s: int|
                    0 <= s < span ==> adds(
                        *plus,
                        start[s],
                        terms_at(groups, id, span as nat, s, i as int),
                        #[trigger] self.outputs@[o as int].accum@[s],
                    ),
            decreases count - i,
        {
            assert(groups[i as int] == self.groups@[i as int].model());
            assert(self.groups@[i as int].wf());
            if self.groups[i].output == id {
                let len: usize = self.groups[i].parked.len();
                let n: usize = if span <= len {
                    span
                } else {
                    len
                };
                assert(n == share(groups[i as int], id, span as nat));
                let ghost before = self.outputs@[o as int].accum@;
                add_parked(&mut self.outputs[o].accum, &self.groups[i].parked, n, plus);
                let ghost after = self.outputs@[o as int].accum@;
                assert forall|s: int| 0 <= s < span implies adds(
                    *plus,
                    start[s],
                    terms_at(groups, id, span as nat, s, i + 1),
                    #[trigger] after[s],
                ) by {
                    assert(adds(
                        *plus,
                        start[s],
                        terms_at(groups, id, span as nat, s, i as int),
                        before[s],
                    ));
                    if s < n {
                        lemma_adds_one_more(
                            *plus,
                            start[s],
                            terms_at(groups, id, span as nat, s, i as int),
                            before[s],
                            groups[i as int].parked[s],
                            after[s],
                        );
                    }
                }
                shift(&mut self.groups[i].parked, n);
                assert(self.groups@[i as int].model() == after_span(groups, id, span as nat)[
                    i as int
                ]);
            } else {
                assert(share(groups[i as int], id, span as nat) == 0);
                assert(groups[i as int].parked.skip(0) =~= groups[i as int].parked);
                assert(self.groups@[i as int].model() == after_span(groups, id, span as nat)[
                    i as int
                ]);
            }
            i = i + 1;
        }
        self.outputs[o].filled = span;
        assert(self.model().groups =~= after_span(groups, id, span as nat));
    }

    /// Advances every output that is not blocked and leaves the rest parked.
    /// `quiet` says which groups are silent.
    pub(crate) fn emit<F: Fn(T, T) -> T>(
        &mut self,
        plus: &F,
        quiet: &Vec<bool>,
        blocked: &[OutputId],
    )
        requires
            old(self).wf(),
            quiet@.len() == old(self).groups@.len(),
            forall|a: T, b: T| call_requires(*plus, (a, b)),
        ensures
            final(self).wf(),
            final(self).muted == old(self).muted,
            final(self).silence == old(self).silence,
            final(self).max_block_frames == old(self).max_block_frames,
            final(self).groups@.len() == old(self).groups@.len(),
            final(self).model().groups == drained(
                old(self).model().groups,
                quiet@,
                old(self).model().outputs,
                blocked@,
                old(self).outputs@.len() as int,
            ),
            final(self).outputs@.len() == old(self).outputs@.len(),
            forall|o: int|
                0 <= o < old(self).outputs@.len() ==> advanced(
                    *plus,
                    drained(
                        old(self).model().groups,
                        quiet@,
                        old(self).model().outputs,
                        blocked@,
                        o,
                    ),
                    quiet@,
                    old(self).outputs@[o].model(),
                    blocked@,
                    (#[trigger] final(self).outputs@[o]).model(),
                ),
    {
        let ghost groups = self.model().groups;
        let ghost outputs = self.model().outputs;
        let ghost all = self.outputs@;
        let count: usize = self.outputs.len();
        let mut o: usize = 0;
        while o < count
            invariant
                o <= count == self.outputs@.len() == all.len(),
                self.wf(),
                quiet@.len() == self.groups@.len(),
                forall|a: T, b: T| call_requires(*plus, (a, b)),
                self.muted == old(self).muted,
                self.silence == old(self).silence,
                self.max_block_frames == old(self).max_block_frames,
                all == old(self).outputs@,
                outputs == output_models(all),
                groups == old(self).model().groups,
                self.groups@.len() == old(self).groups@.len(),
                self.model().groups == drained(groups, quiet@, outputs, blocked@, o as int),
                forall|k: int| o <= k < count ==> self.outputs@[k] == all[k],
                forall|k: int|
                    0 <= k < o ==> advanced(
                        *plus,
                        drained(groups, quiet@, outputs, blocked@, k),
                        quiet@,
                        all[k].model(),
                        blocked@,
                        (#[trigger] self.outputs@[k]).model(),
                    ),
            decreases count - o,
        {
            let ghost here = self.model().groups;
            let ghost spec = all[o as int].model();
            let ghost earlier = self.outputs@;
            assert(outputs[o as int] == spec);
            assert(self.outputs@[o as int].wf());
            if is_blocked(blocked, self.outputs[o].id) {
                self.outputs[o].filled = 0;
                assert(after_span(here, spec.id, 0) =~= here) by {
                    lemma_no_span(here, spec.id);
                }
                assert(advanced(*plus, here, quiet@, spec, blocked@, self.outputs@[o as int].model()));
            } else {
                let span = self.span(quiet, o);
                if span > 0 {
                    self.sum_output(o, span, plus);
                } else {
                    assert(after_span(here, spec.id, 0) =~= here) by {
                        lemma_no_span(here, spec.id);
                    }
                }
                assert(advanced(*plus, here, quiet@, spec, blocked@, self.outputs@[o as int].model()));
            }
            assert(self.model().groups.len() == here.len());
            assert(self.model().groups == drained(groups, quiet@, outputs, blocked@, o + 1));
            assert forall|k: int| 0 <= k < o implies (#[trigger] self.outputs@[k]) == earlier[k] by {}
            o = o + 1;
        }
    }
}

proof fn lemma_no_span<T>(groups: Seq<GroupView<T>>, id: OutputId)
    ensures
        after_span(groups, id, 0) == groups,
{
    assert forall|i: int| 0 <= i < groups.len() implies after_span(groups, id, 0)[i]
        == #[trigger] groups[i] by {
        assert(groups[i].parked.skip(0) =~= groups[i].parked);
    }
    assert(after_span(groups, id, 0) =~= groups);
}

} // verus!
