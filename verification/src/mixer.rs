//! The mixer: groups of applications with their settings, the outputs they are
//! summed into, and how much of each group's audio goes out on a tick.
//!
//! The samples themselves are of any type. What is computed on them (gains,
//! filters, resampling) is behind [`Signal`](crate::signal::Signal); what is decided (who is heard,
//! how far an output may advance, what waits for the next tick) is here.
use crate::chain::{chain_bypassed, chain_tuned, DspChain};
use crate::channel::ChannelMatrix;
use crate::command::{CommandView, MixerCommand};
use crate::convolve::{PartitionedConvolver, Transform};
use crate::float::{Float32, Float64};
use crate::model::DspStageView;
use crate::resample::Src;
use crate::sample::{
    speaker_count, ChannelLayout, DomainError, DuckSpec, Format, Gain, GroupId, OutputId,
    ResampleRatio,
};
use crate::spatial::{are_ready, Spatializer};
use vstd::prelude::*;

verus! {

/// How a group's channels become those of its output.
#[derive(Debug)]
pub enum Render {
    Matrix(ChannelMatrix),
    Spatial(Spatializer),
}

impl Render {
    /// The rendering between two formats: virtual surround where it is asked
    /// for and the output is stereo, the channel matrix elsewhere.
    pub open spec fn serves(&self, spatial: bool, from: Format, to: Format, frames: nat) -> bool {
        match self {
            Render::Spatial(s) => spatial && to.layout.0 == 0x3 && s.renders(from.layout, frames),
            Render::Matrix(m) => !(spatial && to.layout.0 == 0x3) && m.wf() && m.converts(
                from.layout,
                to.layout,
            ),
        }
    }

    /// Virtual surround takes effect only where the output is stereo; every
    /// other pair of formats goes through the channel matrix.
    pub fn build(spatial: bool, from: Format, to: Format, max_block_frames: usize) -> (r: Render)
        requires
            max_block_frames <= usize::MAX / 2,
        ensures
            r.serves(spatial, from, to, max_block_frames as nat),
    {
        let stereo = ChannelLayout::stereo();
        if spatial && to.layout.0 == stereo.0 {
            Render::Spatial(Spatializer::new(from.layout, max_block_frames))
        } else {
            Render::Matrix(ChannelMatrix::new(from.layout, to.layout))
        }
    }

    /// Whether the samples pass unchanged; never so for virtual surround.
    pub fn is_identity(&self) -> (r: bool)
        ensures
            r == (self matches Render::Matrix(m) && m.identity),
    {
        match self {
            Render::Matrix(m) => m.is_identity(),
            Render::Spatial(_) => false,
        }
    }

    /// Everything is there that the rendering takes: a pair of convolutions for
    /// each channel of virtual surround.
    pub open spec fn is_equipped<T: Copy, S: Copy, F: Transform<T, S>>(
        &self,
        ears: Seq<(PartitionedConvolver<T, S, F>, PartitionedConvolver<T, S, F>)>,
    ) -> bool {
        match self {
            Render::Matrix(m) => m.wf(),
            Render::Spatial(s) => s.wf() && ears.len() == s.channels@.len() && are_ready(ears),
        }
    }

    /// Renders whole frames of `input` into `output` and returns how many samples
    /// were written. `mac` adds a sample at its level, which the matrix asks for;
    /// `plus` and `low` add up what the two ears hear.
    pub fn process<
        T: Copy,
        S: Copy,
        F: Transform<T, S>,
        H: Fn(T, usize, T) -> T,
        P: Fn(T, T) -> T,
        G: Fn(T) -> T,
    >(
        &self,
        ears: &mut Vec<(PartitionedConvolver<T, S, F>, PartitionedConvolver<T, S, F>)>,
        silence: T,
        mac: &H,
        plus: &P,
        low: &G,
        input: &[T],
        output: &mut Vec<T>,
    ) -> (r: usize)
        requires
            self.is_equipped(old(ears)@),
            forall|a: T, k: usize, b: T| call_requires(*mac, (a, k, b)),
            forall|a: T, b: T| call_requires(*plus, (a, b)),
            forall|a: T| call_requires(*low, (a,)),
        ensures
            self.is_equipped(final(ears)@),
            match self {
                Render::Matrix(m) => final(ears)@ == old(ears)@ && m.converted(
                    *mac,
                    silence,
                    input@,
                    old(output)@,
                    r as nat,
                    final(output)@,
                ),
                Render::Spatial(s) => s.rendered(
                    *plus,
                    *low,
                    silence,
                    old(ears)@,
                    input@,
                    old(output)@,
                    r as nat,
                    final(ears)@,
                    final(output)@,
                ),
            },
    {
        match self {
            Render::Matrix(m) => m.process(silence, mac, input, output),
            Render::Spatial(s) => s.process(ears, silence, plus, low, input, output),
        }
    }
}

/// One group in the mixer.
#[derive(Debug)]
pub struct GroupState<T> {
    pub id: GroupId,
    pub output: OutputId,
    pub channels: usize,
    pub follow_master: bool,
    pub mute: bool,
    /// Lives as long as the mixer: every rebuild starts unsoloed.
    pub solo: bool,
    /// Where the gain ramps to.
    pub gain: Gain,
    /// Where this group's own copy of the master ramps to.
    pub master: Gain,
    pub render: Render,
    pub chain: DspChain,
    pub duck: Option<DuckSpec>,
    pub input_format: Format,
    /// This tick's samples, after gain and chain, in the group's own layout.
    pub scratch: Vec<T>,
    pub src: Src<T>,
    /// Resampled, but not summed into the output yet.
    pub parked: Vec<T>,
    /// How many samples may be parked: two blocks of the output.
    pub parking: usize,
}

/// One output of the mixer.
#[derive(Debug)]
pub struct OutputState<T> {
    pub id: OutputId,
    pub accum: Vec<T>,
    /// How much of `accum` is to be taken.
    pub filled: usize,
    pub format: Format,
}

#[derive(Debug)]
pub struct Mixer<T> {
    pub max_block_frames: usize,
    pub groups: Vec<GroupState<T>>,
    pub outputs: Vec<OutputState<T>>,
    pub muted: bool,
    /// The sample that is no sound.
    pub silence: T,
}

/// What a [`GroupState`] holds.
pub struct GroupView<T> {
    pub id: GroupId,
    pub output: OutputId,
    pub channels: nat,
    pub follow_master: bool,
    pub mute: bool,
    pub solo: bool,
    pub gain: Float32,
    pub master: Float32,
    pub render: Render,
    pub chain: Seq<DspStageView>,
    pub duck: Option<DuckSpec>,
    pub input_format: Format,
    pub block: Seq<T>,
    /// Channels of what the resampler works on.
    pub lanes: nat,
    pub chunk: nat,
    pub pending: Seq<T>,
    pub waiting: Seq<T>,
    pub ratio: Float64,
    pub parked: Seq<T>,
    pub parking: nat,
}

/// What an [`OutputState`] holds.
pub struct OutputView<T> {
    pub id: OutputId,
    pub accum: Seq<T>,
    pub filled: nat,
    pub format: Format,
}

/// What a [`Mixer`] holds.
pub struct MixerView<T> {
    pub groups: Seq<GroupView<T>>,
    pub outputs: Seq<OutputView<T>>,
    pub muted: bool,
}

impl<T> GroupState<T> {
    pub open spec fn model(self) -> GroupView<T> {
        GroupView {
            id: self.id,
            output: self.output,
            channels: self.channels as nat,
            follow_master: self.follow_master,
            mute: self.mute,
            solo: self.solo,
            gain: self.gain.deep_view(),
            master: self.master.deep_view(),
            render: self.render,
            chain: self.chain.deep_view(),
            duck: self.duck,
            input_format: self.input_format,
            block: self.scratch@,
            lanes: self.src.channels as nat,
            chunk: self.src.chunk as nat,
            pending: self.src.pending_in@,
            waiting: self.src.waiting(),
            ratio: self.src.ratio.deep_view(),
            parked: self.parked@,
            parking: self.parking as nat,
        }
    }

    pub open spec fn wf(self) -> bool {
        &&& self.channels >= 1
        &&& self.src.wf()
        &&& self.parked@.len() <= self.parking
    }
}

impl<T> OutputState<T> {
    pub open spec fn model(self) -> OutputView<T> {
        OutputView {
            id: self.id,
            accum: self.accum@,
            filled: self.filled as nat,
            format: self.format,
        }
    }

    pub open spec fn wf(self) -> bool {
        self.filled <= self.accum@.len()
    }
}

/// The models of some groups.
pub open spec fn group_models<T>(groups: Seq<GroupState<T>>) -> Seq<GroupView<T>> {
    Seq::new(groups.len(), |i: int| groups[i].model())
}

/// The models of some outputs.
pub open spec fn output_models<T>(outputs: Seq<OutputState<T>>) -> Seq<OutputView<T>> {
    Seq::new(outputs.len(), |i: int| outputs[i].model())
}

impl<T> Mixer<T> {
    pub open spec fn model(self) -> MixerView<T> {
        MixerView {
            groups: group_models(self.groups@),
            outputs: output_models(self.outputs@),
            muted: self.muted,
        }
    }

    /// Every group can be processed and no output claims more than it has.
    pub open spec fn wf(self) -> bool {
        &&& forall|i: int| 0 <= i < self.groups@.len() ==> (#[trigger] self.groups@[i]).wf()
        &&& forall|i: int| 0 <= i < self.outputs@.len() ==> (#[trigger] self.outputs@[i]).wf()
    }
}

/// Whether a group is silent on every output: muted itself, or not among the
/// soloed ones while any is. Mute wins over solo.
pub open spec fn is_silenced(mute: bool, solo: bool, solo_active: bool) -> bool {
    mute || (solo_active && !solo)
}

/// Whether any group is soloed.
pub open spec fn any_solo<T>(groups: Seq<GroupView<T>>) -> bool {
    exists|i: int| 0 <= i < groups.len() && (#[trigger] groups[i]).solo
}

/// The position of the first group with an id, from `from` on.
pub open spec fn group_at<T>(groups: Seq<GroupView<T>>, id: GroupId, from: int) -> Option<int>
    decreases groups.len() - from,
{
    if from < 0 || from >= groups.len() {
        None
    } else if groups[from].id == id {
        Some(from)
    } else {
        group_at(groups, id, from + 1)
    }
}

/// The position of the first output with an id, from `from` on.
pub open spec fn output_at<T>(outputs: Seq<OutputView<T>>, id: OutputId, from: int) -> Option<int>
    decreases outputs.len() - from,
{
    if from < 0 || from >= outputs.len() {
        None
    } else if outputs[from].id == id {
        Some(from)
    } else {
        output_at(outputs, id, from + 1)
    }
}

/// The formats that a group comes in and goes out with, where there is such a
/// group and its output.
pub open spec fn formats_at<T>(mixer: MixerView<T>, group: GroupId) -> Option<(Format, Format)> {
    match group_at(mixer.groups, group, 0) {
        Some(i) => match output_at(mixer.outputs, mixer.groups[i].output, 0) {
            Some(o) => Some((mixer.groups[i].input_format, mixer.outputs[o].format)),
            None => None,
        },
        None => None,
    }
}

/// A layout must name exactly as many speakers as the format has channels.
pub open spec fn layout_agrees(fmt: Format) -> bool {
    speaker_count(fmt.layout.0) == fmt.channels
}

pub fn validate_layout(fmt: &Format) -> (r: Result<(), DomainError>)
    ensures
        r == if layout_agrees(*fmt) {
            Ok::<(), DomainError>(())
        } else {
            Err::<(), DomainError>(
                DomainError::InvalidLayout {
                    channels: fmt.channels,
                    layout_count: speaker_count(fmt.layout.0) as u16,
                },
            )
        },
{
    let count = fmt.layout.count();
    if count == fmt.channels {
        Ok(())
    } else {
        Err(DomainError::InvalidLayout { channels: fmt.channels, layout_count: count })
    }
}

/// Whether a group is silent on every output.
pub fn silenced<T>(g: &GroupState<T>, solo_active: bool) -> (r: bool)
    ensures
        r == is_silenced(g.mute, g.solo, solo_active),
{
    g.mute || (solo_active && !g.solo)
}

impl<T> Mixer<T> {
    pub(crate) fn find_group(&self, id: GroupId) -> (r: Option<usize>)
        ensures
            match r {
                Some(i) => group_at(group_models(self.groups@), id, 0) == Some(i as int) && i
                    < self.groups@.len(),
                None => group_at(group_models(self.groups@), id, 0) is None,
            },
    {
        let mut i: usize = 0;
        while i < self.groups.len()
            invariant
                i <= self.groups@.len(),
                group_at(group_models(self.groups@), id, 0) == group_at(
                    group_models(self.groups@),
                    id,
                    i as int,
                ),
            decreases self.groups@.len() - i,
        {
            if self.groups[i].id == id {
                return Some(i);
            }
            i = i + 1;
        }
        None
    }

    pub(crate) fn find_output(&self, id: OutputId) -> (r: Option<usize>)
        ensures
            match r {
                Some(i) => output_at(output_models(self.outputs@), id, 0) == Some(i as int) && i
                    < self.outputs@.len(),
                None => output_at(output_models(self.outputs@), id, 0) is None,
            },
    {
        let mut i: usize = 0;
        while i < self.outputs.len()
            invariant
                i <= self.outputs@.len(),
                output_at(output_models(self.outputs@), id, 0) == output_at(
                    output_models(self.outputs@),
                    id,
                    i as int,
                ),
            decreases self.outputs@.len() - i,
        {
            if self.outputs[i].id == id {
                return Some(i);
            }
            i = i + 1;
        }
        None
    }

    /// The formats that a group comes in and goes out with.
    pub fn formats_of(&self, group: GroupId) -> (r: Option<(Format, Format)>)
        ensures
            r == formats_at(self.model(), group),
    {
        match self.find_group(group) {
            Some(i) => match self.find_output(self.groups[i].output) {
                Some(o) => Some((self.groups[i].input_format, self.outputs[o].format)),
                None => None,
            },
            None => None,
        }
    }

    /// The most samples that one tick can leave in an output; none where there
    /// is no such output.
    pub fn output_capacity(&self, output: OutputId) -> (r: usize)
        ensures
            r == match output_at(self.model().outputs, output, 0) {
                Some(i) => self.model().outputs[i].accum.len(),
                None => 0,
            },
    {
        match self.find_output(output) {
            Some(i) => self.outputs[i].accum.len(),
            None => 0,
        }
    }

    /// Whether any group is soloed.
    pub fn solo_active(&self) -> (r: bool)
        ensures
            r == any_solo(self.model().groups),
    {
        let mut i: usize = 0;
        while i < self.groups.len()
            invariant
                i <= self.groups@.len(),
                forall|j: int| 0 <= j < i ==> !(#[trigger] self.model().groups[j]).solo,
            decreases self.groups@.len() - i,
        {
            if self.groups[i].solo {
                assert(self.model().groups[i as int].solo);
                return true;
            }
            i = i + 1;
        }
        false
    }
}

/// The groups with the first one of an id changed; an id that no group has
/// changes nothing.
pub open spec fn with_group<T>(
    groups: Seq<GroupView<T>>,
    id: GroupId,
    change: spec_fn(GroupView<T>) -> GroupView<T>,
) -> Seq<GroupView<T>> {
    match group_at(groups, id, 0) {
        Some(i) => groups.update(i, change(groups[i])),
        None => groups,
    }
}

/// The groups with all of them changed.
pub open spec fn with_all<T>(
    groups: Seq<GroupView<T>>,
    change: spec_fn(GroupView<T>) -> GroupView<T>,
) -> Seq<GroupView<T>> {
    Seq::new(groups.len(), |i: int| change(groups[i]))
}

/// What a command makes of the groups.
pub open spec fn groups_after<T>(groups: Seq<GroupView<T>>, cmd: CommandView) -> Seq<GroupView<T>> {
    match cmd {
        CommandView::SetGroupGain(id, gain) => with_group(
            groups,
            id,
            |g: GroupView<T>| GroupView { gain, ..g },
        ),
        CommandView::SetMaster(gain) => with_all(
            groups,
            |g: GroupView<T>| GroupView { master: gain, ..g },
        ),
        CommandView::SetFollowMaster(id, on) => with_group(
            groups,
            id,
            |g: GroupView<T>| GroupView { follow_master: on, ..g },
        ),
        CommandView::SetOutputRatio(output, ratio) => with_all(
            groups,
            |g: GroupView<T>|
                if g.output == output {
                    GroupView { ratio, ..g }
                } else {
                    g
                },
        ),
        CommandView::SetMuted(on) => groups,
        CommandView::SetGroupMute(id, on) => with_group(
            groups,
            id,
            |g: GroupView<T>| GroupView { mute: on, ..g },
        ),
        CommandView::SetGroupSolo(id, on) => with_group(
            groups,
            id,
            |g: GroupView<T>| GroupView { solo: on, ..g },
        ),
        CommandView::SetDspParam { group, stage, param } => with_group(
            groups,
            group,
            |g: GroupView<T>| GroupView { chain: chain_tuned(g.chain, stage as int, param), ..g },
        ),
        CommandView::SetDspBypass { group, stage, bypassed } => with_group(
            groups,
            group,
            |g: GroupView<T>|
                GroupView { chain: chain_bypassed(g.chain, stage as int, bypassed), ..g },
        ),
        CommandView::SetDuck { group, duck } => with_group(
            groups,
            group,
            |g: GroupView<T>| GroupView { duck, ..g },
        ),
    }
}

/// Whether everything is muted after a command.
pub open spec fn muted_after(muted: bool, cmd: CommandView) -> bool {
    match cmd {
        CommandView::SetMuted(on) => on,
        _ => muted,
    }
}

impl<T> Mixer<T> {
    fn set_master(&mut self, gain: Gain)
        ensures
            old(self).wf() ==> final(self).wf(),
            final(self).model() == (MixerView {
                groups: groups_after(
                    old(self).model().groups,
                    CommandView::SetMaster(gain.deep_view()),
                ),
                ..old(self).model()
            }),
            final(self).outputs == old(self).outputs,
            final(self).max_block_frames == old(self).max_block_frames,
            final(self).silence == old(self).silence,
    {
        let n: usize = self.groups.len();
        let mut i: usize = 0;
        while i < n
            invariant
                i <= n == self.groups@.len() == old(self).groups@.len(),
                self.outputs == old(self).outputs,
                self.muted == old(self).muted,
                self.max_block_frames == old(self).max_block_frames,
                self.silence == old(self).silence,
                forall|j: int|
                    0 <= j < i ==> (#[trigger] self.groups@[j]).model() == (GroupView {
                        master: gain.deep_view(),
                        ..old(self).groups@[j].model()
                    }) && (old(self).groups@[j].wf() ==> self.groups@[j].wf()),
                forall|j: int| i <= j < n ==> self.groups@[j] == old(self).groups@[j],
            decreases n - i,
        {
            self.groups[i].master = gain;
            i = i + 1;
        }
        assert(self.model().groups =~= groups_after(
            old(self).model().groups,
            CommandView::SetMaster(gain.deep_view()),
        ));
    }

    fn set_output_ratio(&mut self, output: OutputId, ratio: ResampleRatio)
        ensures
            old(self).wf() ==> final(self).wf(),
            final(self).model() == (MixerView {
                groups: groups_after(
                    old(self).model().groups,
                    CommandView::SetOutputRatio(output, ratio.deep_view()),
                ),
                ..old(self).model()
            }),
            final(self).outputs == old(self).outputs,
            final(self).max_block_frames == old(self).max_block_frames,
            final(self).silence == old(self).silence,
    {
        let n: usize = self.groups.len();
        let mut i: usize = 0;
        while i < n
            invariant
                i <= n == self.groups@.len() == old(self).groups@.len(),
                self.outputs == old(self).outputs,
                self.muted == old(self).muted,
                self.max_block_frames == old(self).max_block_frames,
                self.silence == old(self).silence,
                forall|j: int|
                    0 <= j < i ==> (#[trigger] self.groups@[j]).model() == (if old(
                        self).groups@[j].output == output {
                        GroupView { ratio: ratio.deep_view(), ..old(self).groups@[j].model() }
                    } else {
                        old(self).groups@[j].model()
                    }) && (old(self).groups@[j].wf() ==> self.groups@[j].wf()),
                forall|j: int| i <= j < n ==> self.groups@[j] == old(self).groups@[j],
            decreases n - i,
        {
            if self.groups[i].output == output {
                self.groups[i].src.set_ratio(ratio);
                assert(self.groups@[i as int].src.waiting() =~= old(
                    self).groups@[i as int].src.waiting());
            }
            i = i + 1;
        }
        assert(self.model().groups =~= groups_after(
            old(self).model().groups,
            CommandView::SetOutputRatio(output, ratio.deep_view()),
        ));
    }

    /// Applies a command. One that names a group or an output that is not here
    /// changes nothing: it may be older than the topology.
    pub fn apply(&mut self, cmd: MixerCommand)
        ensures
            old(self).wf() ==> final(self).wf(),
            final(self).model() == (MixerView {
                groups: groups_after(old(self).model().groups, cmd.deep_view()),
                outputs: old(self).model().outputs,
                muted: muted_after(old(self).muted, cmd.deep_view()),
            }),
            final(self).outputs == old(self).outputs,
            final(self).max_block_frames == old(self).max_block_frames,
            final(self).silence == old(self).silence,
    {
        let ghost before = self.model().groups;
        match cmd {
            MixerCommand::SetGroupGain(id, gain) => {
                if let Some(i) = self.find_group(id) {
                    self.groups[i].gain = gain;
                }
            },
            MixerCommand::SetMaster(gain) => {
                self.set_master(gain);
            },
            MixerCommand::SetFollowMaster(id, on) => {
                if let Some(i) = self.find_group(id) {
                    self.groups[i].follow_master = on;
                }
            },
            MixerCommand::SetOutputRatio(output, ratio) => {
                self.set_output_ratio(output, ratio);
            },
            MixerCommand::SetMuted(on) => {
                self.muted = on;
            },
            MixerCommand::SetGroupMute(id, on) => {
                if let Some(i) = self.find_group(id) {
                    self.groups[i].mute = on;
                }
            },
            MixerCommand::SetGroupSolo(id, on) => {
                if let Some(i) = self.find_group(id) {
                    self.groups[i].solo = on;
                }
            },
            MixerCommand::SetDspParam { group, stage, param } => {
                if let Some(i) = self.find_group(group) {
                    self.groups[i].chain.set_param(stage, param);
                }
            },
            MixerCommand::SetDspBypass { group, stage, bypassed } => {
                if let Some(i) = self.find_group(group) {
                    self.groups[i].chain.set_bypass(stage, bypassed);
                }
            },
            MixerCommand::SetDuck { group, duck } => {
                if let Some(i) = self.find_group(group) {
                    self.groups[i].duck = duck;
                }
            },
        }
        assert(self.model().groups =~= groups_after(before, cmd.deep_view()));
    }

    /// Puts another chain in the place of a group's own, which is handed back.
    /// Where there is no such group, nothing is.
    pub fn swap_chain(&mut self, group: GroupId, chain: DspChain) -> (r: Option<DspChain>)
        ensures
            old(self).wf() ==> final(self).wf(),
            final(self).max_block_frames == old(self).max_block_frames,
            final(self).silence == old(self).silence,
            match group_at(old(self).model().groups, group, 0) {
                Some(i) => r matches Some(retired) && retired.deep_view() == old(
                    self).model().groups[i].chain && final(self).model() == (MixerView {
                    groups: old(self).model().groups.update(
                        i,
                        GroupView { chain: chain.deep_view(), ..old(self).model().groups[i] },
                    ),
                    ..old(self).model()
                }),
                None => r is None && final(self).model() == old(self).model(),
            },
    {
        match self.find_group(group) {
            Some(i) => {
                let ghost before = self.model().groups;
                let mut other = chain;
                std::mem::swap(&mut other, &mut self.groups[i].chain);
                assert(self.model().groups =~= before.update(
                    i as int,
                    GroupView { chain: chain.deep_view(), ..before[i as int] },
                ));
                Some(other)
            },
            None => None,
        }
    }

    /// Puts another rendering in the place of a group's own, which is handed
    /// back. Where there is no such group, nothing is.
    pub fn swap_render(&mut self, group: GroupId, render: Render) -> (r: Option<Render>)
        ensures
            old(self).wf() ==> final(self).wf(),
            final(self).max_block_frames == old(self).max_block_frames,
            final(self).silence == old(self).silence,
            match group_at(old(self).model().groups, group, 0) {
                Some(i) => r == Some(old(self).model().groups[i].render) && final(self).model()
                    == (MixerView {
                    groups: old(self).model().groups.update(
                        i,
                        GroupView { render, ..old(self).model().groups[i] },
                    ),
                    ..old(self).model()
                }),
                None => r is None && final(self).model() == old(self).model(),
            },
    {
        match self.find_group(group) {
            Some(i) => {
                let ghost before = self.model().groups;
                let mut other = render;
                std::mem::swap(&mut other, &mut self.groups[i].render);
                assert(self.model().groups =~= before.update(
                    i as int,
                    GroupView { render, ..before[i as int] },
                ));
                Some(other)
            },
            None => None,
        }
    }

    /// Forgets the input that a group's resampler still waits to complete, so
    /// that the group no longer holds its output back. Doing it again changes
    /// nothing more.
    pub fn discard_group_partial_input(&mut self, group: GroupId)
        requires
            old(self).wf(),
        ensures
            final(self).wf(),
            final(self).max_block_frames == old(self).max_block_frames,
            final(self).silence == old(self).silence,
            final(self).model() == (MixerView {
                groups: with_group(
                    old(self).model().groups,
                    group,
                    |g: GroupView<T>| GroupView { pending: Seq::empty(), ..g },
                ),
                ..old(self).model()
            }),
    {
        let ghost before = self.model().groups;
        if let Some(i) = self.find_group(group) {
            self.groups[i].src.discard_partial_input();
            assert(self.groups@[i as int].src.pending_in@ =~= Seq::empty());
        }
        assert(self.model().groups =~= with_group(
            before,
            group,
            |g: GroupView<T>| GroupView { pending: Seq::empty(), ..g },
        ));
    }
}

/// The group that an id leads to has that id.
pub proof fn lemma_group_at<T>(groups: Seq<GroupView<T>>, id: GroupId, from: int)
    requires
        0 <= from,
    ensures
        group_at(groups, id, from) matches Some(i) ==> from <= i < groups.len() && groups[i].id
            == id,
    decreases groups.len() - from,
{
    if from < groups.len() && groups[from].id != id {
        lemma_group_at(groups, id, from + 1);
    }
}

/// No command adds, removes or renames a group, moves one to another output,
/// or touches the audio in it.
pub proof fn commands_leave_the_routing_alone<T>(groups: Seq<GroupView<T>>, cmd: CommandView, i: int)
    requires
        0 <= i < groups.len(),
    ensures
        groups_after(groups, cmd).len() == groups.len(),
        groups_after(groups, cmd)[i].id == groups[i].id,
        groups_after(groups, cmd)[i].output == groups[i].output,
        groups_after(groups, cmd)[i].block == groups[i].block,
        groups_after(groups, cmd)[i].pending == groups[i].pending,
        groups_after(groups, cmd)[i].waiting == groups[i].waiting,
        groups_after(groups, cmd)[i].parked == groups[i].parked,
        groups_after(groups, cmd)[i].render == groups[i].render,
{
    match cmd {
        CommandView::SetGroupGain(id, _) => lemma_group_at(groups, id, 0),
        CommandView::SetFollowMaster(id, _) => lemma_group_at(groups, id, 0),
        CommandView::SetGroupMute(id, _) => lemma_group_at(groups, id, 0),
        CommandView::SetGroupSolo(id, _) => lemma_group_at(groups, id, 0),
        CommandView::SetDspParam { group, .. } => lemma_group_at(groups, group, 0),
        CommandView::SetDspBypass { group, .. } => lemma_group_at(groups, group, 0),
        CommandView::SetDuck { group, .. } => lemma_group_at(groups, group, 0),
        _ => {},
    }
}

/// Groups that feed one output run one ratio once it is set, so that they
/// produce as many frames as each other.
pub proof fn one_output_runs_one_ratio<T>(
    groups: Seq<GroupView<T>>,
    output: OutputId,
    ratio: Float64,
    i: int,
    j: int,
)
    requires
        0 <= i < groups.len(),
        0 <= j < groups.len(),
        groups[i].output == output,
        groups[j].output == output,
    ensures
        groups_after(groups, CommandView::SetOutputRatio(output, ratio))[i].ratio == groups_after(
            groups,
            CommandView::SetOutputRatio(output, ratio),
        )[j].ratio,
{
}

/// A command for a group that is not here changes nothing.
pub proof fn stale_commands_change_nothing<T>(groups: Seq<GroupView<T>>, cmd: CommandView, id: GroupId)
    requires
        group_at(groups, id, 0) is None,
        match cmd {
            CommandView::SetGroupGain(g, _) => g == id,
            CommandView::SetFollowMaster(g, _) => g == id,
            CommandView::SetGroupMute(g, _) => g == id,
            CommandView::SetGroupSolo(g, _) => g == id,
            CommandView::SetDspParam { group, .. } => group == id,
            CommandView::SetDspBypass { group, .. } => group == id,
            CommandView::SetDuck { group, .. } => group == id,
            _ => false,
        },
    ensures
        groups_after(groups, cmd) == groups,
{
}

/// What is set on one group is set on no other.
pub proof fn a_setting_is_one_groups_own<T>(
    groups: Seq<GroupView<T>>,
    cmd: CommandView,
    id: GroupId,
    j: int,
)
    requires
        0 <= j < groups.len(),
        groups[j].id != id,
        match cmd {
            CommandView::SetGroupGain(g, _) => g == id,
            CommandView::SetFollowMaster(g, _) => g == id,
            CommandView::SetGroupMute(g, _) => g == id,
            CommandView::SetGroupSolo(g, _) => g == id,
            CommandView::SetDspParam { group, .. } => group == id,
            CommandView::SetDspBypass { group, .. } => group == id,
            CommandView::SetDuck { group, .. } => group == id,
            _ => false,
        },
    ensures
        groups_after(groups, cmd).len() == groups.len(),
        groups_after(groups, cmd)[j] == groups[j],
{
    lemma_group_at(groups, id, 0);
}

/// A solo is set of the group that it is asked of, and a drift correction of every
/// group that feeds the output that it is asked of; all else stays as it is.
pub proof fn solo_and_drift_are_set_where_asked<T>(
    groups: Seq<GroupView<T>>,
    id: GroupId,
    on: bool,
    output: OutputId,
    ratio: Float64,
    i: int,
)
    requires
        0 <= i < groups.len(),
    ensures
        groups_after(groups, CommandView::SetGroupSolo(id, on))[i] == if group_at(groups, id, 0)
            == Some(i) {
            GroupView { solo: on, ..groups[i] }
        } else {
            groups[i]
        },
        groups_after(groups, CommandView::SetOutputRatio(output, ratio))[i] == if groups[i].output
            == output {
            GroupView { ratio, ..groups[i] }
        } else {
            groups[i]
        },
        groups_after(groups, CommandView::SetMuted(on)) == groups,
        group_at(groups, groups[i].id, 0) is Some,
{
    lemma_group_at(groups, id, 0);
    lemma_group_is_found(groups, i, 0);
}

proof fn lemma_group_is_found<T>(groups: Seq<GroupView<T>>, i: int, from: int)
    requires
        0 <= from <= i < groups.len(),
    ensures
        group_at(groups, groups[i].id, from) is Some,
    decreases i - from,
{
    if groups[from].id != groups[i].id {
        lemma_group_is_found(groups, i, from + 1);
    }
}

} // verus!
