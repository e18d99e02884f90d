//! Commands that reach the running mixer without a rebuild.
use crate::dsp::DspParam;
use crate::float::{Float32, Float64};
use crate::sample::{DuckSpec, Gain, GroupId, OutputId, ResampleRatio};
use vstd::prelude::*;

verus! {

#[derive(Debug, Clone, Copy, PartialEq)]
pub enum MixerCommand {
    SetGroupGain(GroupId, Gain),
    SetMaster(Gain),
    SetFollowMaster(GroupId, bool),
    /// Reaches every group that feeds the output: groups summed over one span
    /// must produce the same number of frames, so they run one ratio.
    SetOutputRatio(OutputId, ResampleRatio),
    /// Silences every group on every output, whatever `follow_master` says.
    SetMuted(bool),
    SetGroupMute(GroupId, bool),
    /// Session-only solo, never persisted. One soloed group silences all the
    /// others.
    SetGroupSolo(GroupId, bool),
    SetDspParam { group: GroupId, stage: usize, param: DspParam },
    SetDspBypass { group: GroupId, stage: usize, bypassed: bool },
    SetDuck { group: GroupId, duck: Option<DuckSpec> },
}

/// What a [`MixerCommand`] says, with gains and ratios as numbers.
pub enum CommandView {
    SetGroupGain(GroupId, Float32),
    SetMaster(Float32),
    SetFollowMaster(GroupId, bool),
    SetOutputRatio(OutputId, Float64),
    SetMuted(bool),
    SetGroupMute(GroupId, bool),
    SetGroupSolo(GroupId, bool),
    SetDspParam { group: GroupId, stage: usize, param: DspParam },
    SetDspBypass { group: GroupId, stage: usize, bypassed: bool },
    SetDuck { group: GroupId, duck: Option<DuckSpec> },
}

impl DeepView for MixerCommand {
    type V = CommandView;

    open spec fn deep_view(&self) -> CommandView {
        match *self {
            MixerCommand::SetGroupGain(id, gain) => CommandView::SetGroupGain(id, gain.deep_view()),
            MixerCommand::SetMaster(gain) => CommandView::SetMaster(gain.deep_view()),
            MixerCommand::SetFollowMaster(id, on) => CommandView::SetFollowMaster(id, on),
            MixerCommand::SetOutputRatio(id, ratio) => CommandView::SetOutputRatio(
                id,
                ratio.deep_view(),
            ),
            MixerCommand::SetMuted(on) => CommandView::SetMuted(on),
            MixerCommand::SetGroupMute(id, on) => CommandView::SetGroupMute(id, on),
            MixerCommand::SetGroupSolo(id, on) => CommandView::SetGroupSolo(id, on),
            MixerCommand::SetDspParam { group, stage, param } => CommandView::SetDspParam {
                group,
                stage,
                param,
            },
            MixerCommand::SetDspBypass { group, stage, bypassed } => CommandView::SetDspBypass {
                group,
                stage,
                bypassed,
            },
            MixerCommand::SetDuck { group, duck } => CommandView::SetDuck { group, duck },
        }
    }
}

} // verus!
