//! Building a mixer: what a topology must hold to, and how large its buffers
//! are.
//!
//! Everything behind a group's resampler counts frames of the output's rate.
//! A buffer sized in input frames would cut every block short where the
//! device runs faster than the capture.
use crate::chain::{fresh, unfit_from, DspChain};
use crate::float::{Float32, Float64};
use crate::mixer::{
    layout_agrees, validate_layout, GroupState, GroupView, Mixer, OutputState, OutputView, Render,
};
use crate::resample::{max_output_block_frames, stretched, Src};
use crate::sample::{
    speaker_count, DomainError, Format, GroupId, GroupSpec, OutputId, OutputSpec, Topology,
};
use vstd::prelude::*;

verus! {

/// The position of the first output of a topology with an id, from `from` on.
pub open spec fn output_spec_at(outputs: Seq<OutputSpec>, id: OutputId, from: int) -> Option<int>
    decreases outputs.len() - from,
{
    if from < 0 || from >= outputs.len() {
        None
    } else if outputs[from].id == id {
        Some(from)
    } else {
        output_spec_at(outputs, id, from + 1)
    }
}

/// Whether a topology has a group with an id.
pub open spec fn has_group(groups: Seq<GroupSpec>, id: GroupId) -> bool {
    exists|i: int| 0 <= i < groups.len() && (#[trigger] groups[i]).id == id
}

/// Why a group cannot be built, in the order that it is looked into: its
/// output, its duck's trigger, its own layout, the output's, its bands.
pub open spec fn refusal(spec: GroupSpec, topology: Topology) -> Option<DomainError> {
    match output_spec_at(topology.outputs@, spec.output, 0) {
        None => Some(DomainError::DanglingOutputRef { group: spec.id, output: spec.output }),
        Some(o) => {
            let to = topology.outputs@[o].format;
            let from = spec.input_format;
            if spec.duck is Some && !has_group(topology.groups@, spec.duck->0.trigger) {
                Some(
                    DomainError::DanglingDuckTrigger {
                        group: spec.id,
                        trigger: spec.duck->0.trigger,
                    },
                )
            } else if !layout_agrees(from) {
                Some(
                    DomainError::InvalidLayout {
                        channels: from.channels,
                        layout_count: speaker_count(from.layout.0) as u16,
                    },
                )
            } else if !layout_agrees(to) {
                Some(
                    DomainError::InvalidLayout {
                        channels: to.channels,
                        layout_count: speaker_count(to.layout.0) as u16,
                    },
                )
            } else {
                match unfit_from(spec.dsp.deep_view(), from.sample_rate as nat, 0) {
                    Some(band) => Some(
                        DomainError::InvalidEqBand { freq_hz: band.freq_hz, q: band.q },
                    ),
                    None => None,
                }
            }
        },
    }
}

/// Why the first group, from `from` on, that cannot be built cannot.
pub open spec fn refusal_from(topology: Topology, from: int) -> Option<DomainError>
    decreases topology.groups@.len() - from,
{
    if from < 0 || from >= topology.groups@.len() {
        None
    } else {
        match refusal(topology.groups@[from], topology) {
            Some(e) => Some(e),
            None => refusal_from(topology, from + 1),
        }
    }
}

/// The frames of an output that a block can become: the most over the first
/// `n` groups that feed it, if any does.
pub open spec fn widest(groups: Seq<GroupSpec>, out: OutputSpec, frames: nat, n: int) -> Option<nat>
    decreases n,
{
    if n <= 0 {
        None
    } else {
        let before = widest(groups, out, frames, n - 1);
        if groups[n - 1].output != out.id {
            before
        } else {
            let own = stretched(
                frames,
                groups[n - 1].input_format.sample_rate as nat,
                out.format.sample_rate as nat,
            );
            match before {
                Some(most) if most >= own => Some(most),
                _ => Some(own),
            }
        }
    }
}

/// The frames that an output has room for. One that no group feeds has room
/// for a block.
pub open spec fn block_frames(groups: Seq<GroupSpec>, out: OutputSpec, frames: nat) -> nat {
    match widest(groups, out, frames, groups.len() as int) {
        Some(most) => most,
        None => frames,
    }
}

/// The buffers of a topology fit in memory.
pub open spec fn fits(topology: Topology, frames: nat) -> bool {
    &&& frames <= usize::MAX / 2
    &&& forall|g: int, o: int|
        #![trigger topology.groups@[g], topology.outputs@[o]]
        0 <= g < topology.groups@.len() && 0 <= o < topology.outputs@.len() ==> stretched(
            frames,
            topology.groups@[g].input_format.sample_rate as nat,
            topology.outputs@[o].format.sample_rate as nat,
        ) * topology.outputs@[o].format.channels * 2 <= usize::MAX && stretched(
            frames,
            topology.groups@[g].input_format.sample_rate as nat,
            topology.outputs@[o].format.sample_rate as nat,
        ) <= usize::MAX
    &&& forall|o: int|
        0 <= o < topology.outputs@.len() ==> frames * (
        #[trigger] topology.outputs@[o]).format.channels <= usize::MAX
}

/// Every format of a topology has a channel.
pub open spec fn sounding(topology: Topology) -> bool {
    &&& forall|g: int|
        0 <= g < topology.groups@.len() ==> (
        #[trigger] topology.groups@[g]).input_format.channels > 0
    &&& forall|o: int|
        0 <= o < topology.outputs@.len() ==> (#[trigger] topology.outputs@[o]).format.channels > 0
}

/// How a group starts: as its spec says, unsoloed, with nothing in it.
pub open spec fn starts_as<T>(
    g: GroupView<T>,
    spec: GroupSpec,
    to: Format,
    master: Float32,
    frames: nat,
) -> bool {
    &&& g.id == spec.id
    &&& g.output == spec.output
    &&& g.channels == spec.input_format.channels
    &&& g.follow_master == spec.follow_master
    &&& g.mute == spec.mute
    &&& !g.solo
    &&& g.gain == spec.gain.deep_view()
    &&& g.master == master
    &&& g.render.serves(spec.spatial, spec.input_format, to, frames)
    &&& g.chain == fresh(spec.dsp.deep_view())
    &&& g.duck == spec.duck
    &&& g.input_format == spec.input_format
    &&& g.block.len() == 0
    &&& g.lanes == to.channels
    &&& g.chunk == frames * to.channels
    &&& g.pending.len() == 0
    &&& g.waiting.len() == 0
    &&& g.ratio == (Float64 { bits: 0x3ff0_0000_0000_0000 })
    &&& g.parked.len() == 0
    &&& g.parking == stretched(
        frames,
        spec.input_format.sample_rate as nat,
        to.sample_rate as nat,
    ) * to.channels * 2
}

fn find_output_spec(outputs: &Vec<OutputSpec>, id: OutputId) -> (r: Option<usize>)
    ensures
        match r {
            Some(i) => output_spec_at(outputs@, id, 0) == Some(i as int) && i < outputs@.len(),
            None => output_spec_at(outputs@, id, 0) is None,
        },
{
    let mut i: usize = 0;
    while i < outputs.len()
        invariant
            i <= outputs@.len(),
            output_spec_at(outputs@, id, 0) == output_spec_at(outputs@, id, i as int),
        decreases outputs@.len() - i,
    {
        if outputs[i].id == id {
            return Some(i);
        }
        i = i + 1;
    }
    None
}

fn knows_group(groups: &Vec<GroupSpec>, id: GroupId) -> (r: bool)
    ensures
        r == has_group(groups@, id),
{
    let mut i: usize = 0;
    while i < groups.len()
        invariant
            i <= groups@.len(),
            forall|j: int| 0 <= j < i ==> (#[trigger] groups@[j]).id != id,
        decreases groups@.len() - i,
    {
        if groups[i].id == id {
            assert(groups@[i as int].id == id);
            return true;
        }
        i = i + 1;
    }
    false
}

/// How many frames of an output's audio one input block can become.
fn output_block_frames(topology: &Topology, o: usize, max_block_frames: usize) -> (r: usize)
    requires
        o < topology.outputs@.len(),
        fits(*topology, max_block_frames as nat),
    ensures
        r == block_frames(
            topology.groups@,
            topology.outputs@[o as int],
            max_block_frames as nat,
        ),
        r * topology.outputs@[o as int].format.channels <= usize::MAX,
{
    let out = &topology.outputs[o];
    let ghost spec = topology.outputs@[o as int];
    let mut most: Option<usize> = None;
    let mut i: usize = 0;
    while i < topology.groups.len()
        invariant
            i <= topology.groups@.len(),
            o < topology.outputs@.len(),
            *out == spec,
            spec == topology.outputs@[o as int],
            fits(*topology, max_block_frames as nat),
            match most {
                Some(m) => widest(topology.groups@, spec, max_block_frames as nat, i as int)
                    == Some(m as nat) && m * spec.format.channels <= usize::MAX,
                None => widest(topology.groups@, spec, max_block_frames as nat, i as int) is None,
            },
        decreases topology.groups@.len() - i,
    {
        if topology.groups[i].output == out.id {
            let ghost g = topology.groups@[i as int];
            let own = max_output_block_frames(
                max_block_frames,
                topology.groups[i].input_format.sample_rate,
                out.format.sample_rate,
            );
            assert(own * spec.format.channels <= own * spec.format.channels * 2)
                by (nonlinear_arith)
                requires
                    own >= 0,
                    spec.format.channels >= 0,
            ;
            match most {
                Some(m) if m >= own => {},
                _ => {
                    most = Some(own);
                },
            }
        }
        i = i + 1;
    }
    match most {
        Some(m) => m,
        None => max_block_frames,
    }
}

/// Builds one group of a topology.
pub fn build_group<T>(gspec: &GroupSpec, topology: &Topology, max_block_frames: usize) -> (r: Result<
    GroupState<T>,
    DomainError,
>)
    requires
        1 <= max_block_frames,
        fits(*topology, max_block_frames as nat),
        topology.groups@.contains(*gspec),
    ensures
        match refusal(*gspec, *topology) {
            Some(e) => r == Err::<GroupState<T>, DomainError>(e),
            None => r matches Ok(g) && starts_as(
                g.model(),
                *gspec,
                topology.outputs@[output_spec_at(topology.outputs@, gspec.output, 0)->0].format,
                topology.master.deep_view(),
                max_block_frames as nat,
            ) && (sounding(*topology) ==> g.wf()),
        },
{
    let o = match find_output_spec(&topology.outputs, gspec.output) {
        Some(o) => o,
        None => {
            return Err(
                DomainError::DanglingOutputRef { group: gspec.id, output: gspec.output },
            );
        },
    };
    match gspec.duck {
        Some(duck) => {
            if !knows_group(&topology.groups, duck.trigger) {
                return Err(
                    DomainError::DanglingDuckTrigger { group: gspec.id, trigger: duck.trigger },
                );
            }
        },
        None => {},
    }
    let to = topology.outputs[o].format;
    match validate_layout(&gspec.input_format) {
        Ok(()) => {},
        Err(e) => {
            return Err(e);
        },
    }
    match validate_layout(&to) {
        Ok(()) => {},
        Err(e) => {
            return Err(e);
        },
    }
    let render = Render::build(gspec.spatial, gspec.input_format, to, max_block_frames);
    // Resampling comes after rendering: both sides have the output's channels.
    let src_from = Format {
        sample_rate: gspec.input_format.sample_rate,
        channels: to.channels,
        layout: to.layout,
    };
    assert(topology.outputs@[o as int].format == to);
    let src: Src<T> = match Src::new(src_from, to, max_block_frames) {
        Ok(src) => src,
        Err(e) => {
            return Err(e);
        },
    };
    let chain = match DspChain::new(&gspec.dsp, gspec.input_format) {
        Ok(chain) => chain,
        Err(e) => {
            return Err(e);
        },
    };
    proof {
        let g = choose|g: int| 0 <= g < topology.groups@.len() && topology.groups@[g] == *gspec;
        assert(topology.groups@[g] == *gspec && topology.outputs@[o as int].format == to);
    }
    let frames = max_output_block_frames(
        max_block_frames,
        gspec.input_format.sample_rate,
        to.sample_rate,
    );
    assert(frames * to.channels <= frames * to.channels * 2) by (nonlinear_arith)
        requires
            frames >= 0,
            to.channels >= 0,
    ;
    let parking: usize = frames * (to.channels as usize) * 2;
    let group = GroupState {
        id: gspec.id,
        output: gspec.output,
        channels: gspec.input_format.channels as usize,
        follow_master: gspec.follow_master,
        mute: gspec.mute,
        solo: false,
        gain: gspec.gain,
        master: topology.master,
        render,
        chain,
        duck: gspec.duck,
        input_format: gspec.input_format,
        scratch: Vec::new(),
        src,
        parked: Vec::with_capacity(parking),
        parking,
    };
    Ok(group)
}

impl<T: Copy> Mixer<T> {
    /// A mixer for a topology, with the first reason there is against it.
    /// `silence` is the sample that is no sound.
    pub fn new(topology: &Topology, max_block_frames: usize, silence: T) -> (r: Result<
        Mixer<T>,
        DomainError,
    >)
        requires
            fits(
                *topology,
                if max_block_frames == 0 {
                    1
                } else {
                    max_block_frames as nat
                },
            ),
        ensures
            match refusal_from(*topology, 0) {
                Some(e) => r == Err::<Mixer<T>, DomainError>(e),
                None => {
                    let frames = if max_block_frames == 0 {
                        1
                    } else {
                        max_block_frames as nat
                    };
                    &&& r matches Ok(m)
                    &&& sounding(*topology) ==> m.wf()
                    &&& m.max_block_frames == frames
                    &&& m.silence == silence
                    &&& !m.muted
                    &&& m.groups@.len() == topology.groups@.len()
                    &&& m.outputs@.len() == topology.outputs@.len()
                    &&& forall|i: int|
                        0 <= i < m.groups@.len() ==> starts_as(
                            (#[trigger] m.groups@[i]).model(),
                            topology.groups@[i],
                            topology.outputs@[output_spec_at(
                                topology.outputs@,
                                topology.groups@[i].output,
                                0,
                            )->0].format,
                            topology.master.deep_view(),
                            frames,
                        )
                    &&& forall|o: int|
                        0 <= o < m.outputs@.len() ==> (#[trigger] m.outputs@[o]).model() == (
                        OutputView {
                            id: topology.outputs@[o].id,
                            accum: Seq::new(
                                block_frames(topology.groups@, topology.outputs@[o], frames)
                                    * topology.outputs@[o].format.channels as nat,
                                |k: int| silence,
                            ),
                            filled: 0,
                            format: topology.outputs@[o].format,
                        })
                },
            },
    {
        let frames: usize = if max_block_frames == 0 {
            1
        } else {
            max_block_frames
        };
        let mut outputs: Vec<OutputState<T>> = Vec::new();
        let mut o: usize = 0;
        while o < topology.outputs.len()
            invariant
                o <= topology.outputs@.len(),
                outputs@.len() == o,
                fits(*topology, frames as nat),
                forall|k: int|
                    0 <= k < o ==> (#[trigger] outputs@[k]).model() == (OutputView {
                        id: topology.outputs@[k].id,
                        accum: Seq::new(
                            block_frames(topology.groups@, topology.outputs@[k], frames as nat)
                                * topology.outputs@[k].format.channels as nat,
                            |j: int| silence,
                        ),
                        filled: 0,
                        format: topology.outputs@[k].format,
                    }),
            decreases topology.outputs@.len() - o,
        {
            let block = output_block_frames(topology, o, frames);
            let spec = &topology.outputs[o];
            let cap: usize = block * (spec.format.channels as usize);
            let accum = filled_with(silence, cap);
            outputs.push(
                OutputState { id: spec.id, accum, filled: 0, format: spec.format },
            );
            assert(outputs@[o as int].model().accum =~= Seq::new(cap as nat, |j: int| silence));
            o = o + 1;
        }
        let mut groups: Vec<GroupState<T>> = Vec::new();
        let mut i: usize = 0;
        while i < topology.groups.len()
            invariant
                i <= topology.groups@.len(),
                groups@.len() == i,
                1 <= frames,
                fits(*topology, frames as nat),
                refusal_from(*topology, 0) == refusal_from(*topology, i as int),
                sounding(*topology) ==> forall|k: int|
                    0 <= k < i ==> (#[trigger] groups@[k]).wf(),
                forall|k: int|
                    0 <= k < i ==> starts_as(
                        (#[trigger] groups@[k]).model(),
                        topology.groups@[k],
                        topology.outputs@[output_spec_at(
                            topology.outputs@,
                            topology.groups@[k].output,
                            0,
                        )->0].format,
                        topology.master.deep_view(),
                        frames as nat,
                    ),
            decreases topology.groups@.len() - i,
        {
            assert(topology.groups@.contains(topology.groups@[i as int]));
            match build_group(&topology.groups[i], topology, frames) {
                Ok(g) => {
                    groups.push(g);
                },
                Err(e) => {
                    return Err(e);
                },
            }
            i = i + 1;
        }
        Ok(Mixer { max_block_frames: frames, groups, outputs, muted: false, silence })
    }
}

fn filled_with<T: Copy>(value: T, n: usize) -> (r: Vec<T>)
    ensures
        r@ == Seq::new(n as nat, |j: int| value),
{
    let mut out: Vec<T> = Vec::with_capacity(n);
    let mut i: usize = 0;
    while i < n
        invariant
            i <= n,
            out@ == Seq::new(i as nat, |j: int| value),
        decreases n - i,
    {
        out.push(value);
        i = i + 1;
    }
    out
}

/// An output has room for what a block of any group becomes that feeds it, and for no
/// more than the widest of them needs. One that no group feeds has room for a block.
pub proof fn an_output_has_room_for_its_groups(
    groups: Seq<GroupSpec>,
    out: OutputSpec,
    frames: nat,
    i: int,
)
    ensures
        0 <= i < groups.len() && groups[i].output == out.id ==> stretched(
            frames,
            groups[i].input_format.sample_rate as nat,
            out.format.sample_rate as nat,
        ) <= block_frames(groups, out, frames),
        (exists|k: int|
            0 <= k < groups.len() && (#[trigger] groups[k]).output == out.id && stretched(
                frames,
                groups[k].input_format.sample_rate as nat,
                out.format.sample_rate as nat,
            ) == block_frames(groups, out, frames)) || (block_frames(groups, out, frames) == frames
            && forall|k: int| 0 <= k < groups.len() ==> (#[trigger] groups[k]).output != out.id),
{
    lemma_widest(groups, out, frames, groups.len() as int, i);
}

proof fn lemma_widest(groups: Seq<GroupSpec>, out: OutputSpec, frames: nat, n: int, i: int)
    requires
        0 <= n <= groups.len(),
    ensures
        match widest(groups, out, frames, n) {
            None => forall|k: int| 0 <= k < n ==> (#[trigger] groups[k]).output != out.id,
            Some(most) => {
                &&& 0 <= i < n && groups[i].output == out.id ==> stretched(
                    frames,
                    groups[i].input_format.sample_rate as nat,
                    out.format.sample_rate as nat,
                ) <= most
                &&& exists|k: int|
                    0 <= k < n && (#[trigger] groups[k]).output == out.id && stretched(
                        frames,
                        groups[k].input_format.sample_rate as nat,
                        out.format.sample_rate as nat,
                    ) == most
            },
        },
    decreases n,
{
    if n > 0 {
        lemma_widest(groups, out, frames, n - 1, i);
        assert(groups[n - 1] == groups[n - 1]);
    }
}

} // verus!
