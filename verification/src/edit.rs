//! Edits to the configuration, and the path on which each reaches the
//! running engine.
use crate::delta::group_index;
use crate::delta::group_named;
use crate::dsp::{copy_bands, DspSpec, DspSpecView, EqBandSpec};
use crate::float::Float32;
use crate::model::{
    copy_duck, copy_stages, AccentChoice, ConfigSnapshot, DspStageConfig, DspStageView,
    DuckSpecConfig, DuckView, GroupConfig, GroupView, ProfileConfig, ProfileView, ThemeChoice,
};
use crate::sample::{Gain, GroupId};
use crate::text::{copy_option, copy_texts};
use vstd::prelude::*;

verus! {

/// A change to the configuration, as the shell makes it.
#[derive(Debug)]
pub enum ConfigEdit {
    SetGroupGain(String, Gain),
    SetMaster(Gain),
    SetMuted(bool),
    SetFollowMaster(String, bool),
    /// Persisted mute of a group. There is no solo edit: solo never reaches the
    /// file.
    SetGroupMute(String, bool),
    SetGroupOutput(String, String),
    AddGroup(GroupConfig),
    RemoveGroup(String),
    SetRules(String, Vec<String>),
    /// One band of one EQ stage: group, stage, band.
    SetEqBand(String, usize, usize, EqBandSpec),
    /// All bands of one EQ stage. Adding, removing and presets come as this.
    SetEqBands(String, usize, Vec<EqBandSpec>),
    SetLimiterCeiling(String, Float32),
    SetDuck(String, Option<DuckSpecConfig>),
    SetDspBypass(String, usize, bool),
    AddDspStage(String, DspSpec),
    RemoveDspStage(String, usize),
    SetSpatial(String, bool),
    SetAutostart(bool),
    /// The whole chain of a group.
    SetDspChain(String, Vec<DspStageConfig>),
    /// Overwrites the profile of that name, or adds it.
    SetProfile(ProfileConfig),
    RemoveProfile(String),
    SetActiveProfile(Option<String>),
    SetTheme(ThemeChoice),
    SetAccent(AccentChoice),
    SetExcluded(Vec<String>),
    SetSinkDevice(Option<String>),
    SetManageDefault(bool),
    SetPreviousDefault(Option<String>),
    SetVolumeBind(Option<String>),
}

/// What a [`ConfigEdit`] says.
pub enum EditView {
    SetGroupGain(Seq<char>, Float32),
    SetMaster(Float32),
    SetMuted(bool),
    SetFollowMaster(Seq<char>, bool),
    SetGroupMute(Seq<char>, bool),
    SetGroupOutput(Seq<char>, Seq<char>),
    AddGroup(GroupView),
    RemoveGroup(Seq<char>),
    SetRules(Seq<char>, Seq<Seq<char>>),
    SetEqBand(Seq<char>, usize, usize, EqBandSpec),
    SetEqBands(Seq<char>, usize, Seq<EqBandSpec>),
    SetLimiterCeiling(Seq<char>, Float32),
    SetDuck(Seq<char>, Option<DuckView>),
    SetDspBypass(Seq<char>, usize, bool),
    AddDspStage(Seq<char>, DspSpecView),
    RemoveDspStage(Seq<char>, usize),
    SetSpatial(Seq<char>, bool),
    SetAutostart(bool),
    SetDspChain(Seq<char>, Seq<DspStageView>),
    SetProfile(ProfileView),
    RemoveProfile(Seq<char>),
    SetActiveProfile(Option<Seq<char>>),
    SetTheme(ThemeChoice),
    SetAccent(AccentChoice),
    SetExcluded(Seq<Seq<char>>),
    SetSinkDevice(Option<Seq<char>>),
    SetManageDefault(bool),
    SetPreviousDefault(Option<Seq<char>>),
    SetVolumeBind(Option<Seq<char>>),
}

impl DeepView for ConfigEdit {
    type V = EditView;

    open spec fn deep_view(&self) -> EditView {
        match self {
            ConfigEdit::SetGroupGain(a, b) => EditView::SetGroupGain(a@, b.deep_view()),
            ConfigEdit::SetMaster(a) => EditView::SetMaster(a.deep_view()),
            ConfigEdit::SetMuted(a) => EditView::SetMuted(*a),
            ConfigEdit::SetFollowMaster(a, b) => EditView::SetFollowMaster(a@, *b),
            ConfigEdit::SetGroupMute(a, b) => EditView::SetGroupMute(a@, *b),
            ConfigEdit::SetGroupOutput(a, b) => EditView::SetGroupOutput(a@, b@),
            ConfigEdit::AddGroup(a) => EditView::AddGroup(a.deep_view()),
            ConfigEdit::RemoveGroup(a) => EditView::RemoveGroup(a@),
            ConfigEdit::SetRules(a, b) => EditView::SetRules(a@, b.deep_view()),
            ConfigEdit::SetEqBand(a, b, c, d) => EditView::SetEqBand(a@, *b, *c, *d),
            ConfigEdit::SetEqBands(a, b, c) => EditView::SetEqBands(a@, *b, c.deep_view()),
            ConfigEdit::SetLimiterCeiling(a, b) => EditView::SetLimiterCeiling(a@, *b),
            ConfigEdit::SetDuck(a, b) => EditView::SetDuck(a@, b.deep_view()),
            ConfigEdit::SetDspBypass(a, b, c) => EditView::SetDspBypass(a@, *b, *c),
            ConfigEdit::AddDspStage(a, b) => EditView::AddDspStage(a@, b.deep_view()),
            ConfigEdit::RemoveDspStage(a, b) => EditView::RemoveDspStage(a@, *b),
            ConfigEdit::SetSpatial(a, b) => EditView::SetSpatial(a@, *b),
            ConfigEdit::SetAutostart(a) => EditView::SetAutostart(*a),
            ConfigEdit::SetDspChain(a, b) => EditView::SetDspChain(a@, b.deep_view()),
            ConfigEdit::SetProfile(a) => EditView::SetProfile(a.deep_view()),
            ConfigEdit::RemoveProfile(a) => EditView::RemoveProfile(a@),
            ConfigEdit::SetActiveProfile(a) => EditView::SetActiveProfile(a.deep_view()),
            ConfigEdit::SetTheme(a) => EditView::SetTheme(*a),
            ConfigEdit::SetAccent(a) => EditView::SetAccent(*a),
            ConfigEdit::SetExcluded(a) => EditView::SetExcluded(a.deep_view()),
            ConfigEdit::SetSinkDevice(a) => EditView::SetSinkDevice(a.deep_view()),
            ConfigEdit::SetManageDefault(a) => EditView::SetManageDefault(*a),
            ConfigEdit::SetPreviousDefault(a) => EditView::SetPreviousDefault(a.deep_view()),
            ConfigEdit::SetVolumeBind(a) => EditView::SetVolumeBind(a.deep_view()),
        }
    }
}

impl Clone for ConfigEdit {
    fn clone(&self) -> (r: ConfigEdit)
        ensures
            r.deep_view() == self.deep_view(),
    {
        match self {
            ConfigEdit::SetGroupGain(a, b) => ConfigEdit::SetGroupGain(a.clone(), *b),
            ConfigEdit::SetMaster(a) => ConfigEdit::SetMaster(*a),
            ConfigEdit::SetMuted(a) => ConfigEdit::SetMuted(*a),
            ConfigEdit::SetFollowMaster(a, b) => ConfigEdit::SetFollowMaster(a.clone(), *b),
            ConfigEdit::SetGroupMute(a, b) => ConfigEdit::SetGroupMute(a.clone(), *b),
            ConfigEdit::SetGroupOutput(a, b) => ConfigEdit::SetGroupOutput(a.clone(), b.clone()),
            ConfigEdit::AddGroup(a) => ConfigEdit::AddGroup(a.clone()),
            ConfigEdit::RemoveGroup(a) => ConfigEdit::RemoveGroup(a.clone()),
            ConfigEdit::SetRules(a, b) => ConfigEdit::SetRules(a.clone(), copy_texts(b)),
            ConfigEdit::SetEqBand(a, b, c, d) => ConfigEdit::SetEqBand(a.clone(), *b, *c, *d),
            ConfigEdit::SetEqBands(a, b, c) => ConfigEdit::SetEqBands(a.clone(), *b, copy_bands(c)),
            ConfigEdit::SetLimiterCeiling(a, b) => ConfigEdit::SetLimiterCeiling(a.clone(), *b),
            ConfigEdit::SetDuck(a, b) => ConfigEdit::SetDuck(a.clone(), copy_duck(b)),
            ConfigEdit::SetDspBypass(a, b, c) => ConfigEdit::SetDspBypass(a.clone(), *b, *c),
            ConfigEdit::AddDspStage(a, b) => ConfigEdit::AddDspStage(a.clone(), b.clone()),
            ConfigEdit::RemoveDspStage(a, b) => ConfigEdit::RemoveDspStage(a.clone(), *b),
            ConfigEdit::SetSpatial(a, b) => ConfigEdit::SetSpatial(a.clone(), *b),
            ConfigEdit::SetAutostart(a) => ConfigEdit::SetAutostart(*a),
            ConfigEdit::SetDspChain(a, b) => ConfigEdit::SetDspChain(a.clone(), copy_stages(b)),
            ConfigEdit::SetProfile(a) => ConfigEdit::SetProfile(a.clone()),
            ConfigEdit::RemoveProfile(a) => ConfigEdit::RemoveProfile(a.clone()),
            ConfigEdit::SetActiveProfile(a) => ConfigEdit::SetActiveProfile(copy_option(a)),
            ConfigEdit::SetTheme(a) => ConfigEdit::SetTheme(*a),
            ConfigEdit::SetAccent(a) => ConfigEdit::SetAccent(*a),
            ConfigEdit::SetExcluded(a) => ConfigEdit::SetExcluded(copy_texts(a)),
            ConfigEdit::SetSinkDevice(a) => ConfigEdit::SetSinkDevice(copy_option(a)),
            ConfigEdit::SetManageDefault(a) => ConfigEdit::SetManageDefault(*a),
            ConfigEdit::SetPreviousDefault(a) => ConfigEdit::SetPreviousDefault(copy_option(a)),
            ConfigEdit::SetVolumeBind(a) => ConfigEdit::SetVolumeBind(copy_option(a)),
        }
    }
}

/// How an edit reaches the running engine.
#[derive(Debug, Clone, Copy, PartialEq, Eq, Structural)]
pub enum EditPath {
    /// A command to the mixer, without a rebuild.
    Param,
    /// A rebuild of the whole graph: devices or the set of groups change.
    Rebuild,
    /// A render stage built aside and swapped in.
    Spatial,
    /// A chain built aside and swapped in.
    DspChain,
}

/// The path of each edit.
pub open spec fn path_of(edit: EditView) -> EditPath {
    match edit {
        EditView::SetGroupOutput(_, _) => EditPath::Rebuild,
        EditView::AddGroup(_) => EditPath::Rebuild,
        EditView::RemoveGroup(_) => EditPath::Rebuild,
        EditView::SetSpatial(_, _) => EditPath::Spatial,
        EditView::SetEqBands(_, _, _) => EditPath::DspChain,
        EditView::AddDspStage(_, _) => EditPath::DspChain,
        EditView::RemoveDspStage(_, _) => EditPath::DspChain,
        EditView::SetDspChain(_, _) => EditPath::DspChain,
        _ => EditPath::Param,
    }
}

/// The path of each edit.
pub fn edit_path(edit: &ConfigEdit) -> (r: EditPath)
    ensures
        r == path_of(edit.deep_view()),
{
    match edit {
        ConfigEdit::SetGroupGain(..) => EditPath::Param,
        ConfigEdit::SetMaster(..) => EditPath::Param,
        ConfigEdit::SetMuted(..) => EditPath::Param,
        ConfigEdit::SetFollowMaster(..) => EditPath::Param,
        ConfigEdit::SetGroupMute(..) => EditPath::Param,
        ConfigEdit::SetGroupOutput(..) => EditPath::Rebuild,
        ConfigEdit::AddGroup(..) => EditPath::Rebuild,
        ConfigEdit::RemoveGroup(..) => EditPath::Rebuild,
        ConfigEdit::SetRules(..) => EditPath::Param,
        ConfigEdit::SetEqBand(..) => EditPath::Param,
        ConfigEdit::SetEqBands(..) => EditPath::DspChain,
        ConfigEdit::SetLimiterCeiling(..) => EditPath::Param,
        ConfigEdit::SetDuck(..) => EditPath::Param,
        ConfigEdit::SetDspBypass(..) => EditPath::Param,
        ConfigEdit::AddDspStage(..) => EditPath::DspChain,
        ConfigEdit::RemoveDspStage(..) => EditPath::DspChain,
        ConfigEdit::SetSpatial(..) => EditPath::Spatial,
        ConfigEdit::SetAutostart(..) => EditPath::Param,
        ConfigEdit::SetDspChain(..) => EditPath::DspChain,
        ConfigEdit::SetProfile(..) => EditPath::Param,
        ConfigEdit::RemoveProfile(..) => EditPath::Param,
        ConfigEdit::SetActiveProfile(..) => EditPath::Param,
        ConfigEdit::SetTheme(..) => EditPath::Param,
        ConfigEdit::SetAccent(..) => EditPath::Param,
        ConfigEdit::SetExcluded(..) => EditPath::Param,
        ConfigEdit::SetSinkDevice(..) => EditPath::Param,
        ConfigEdit::SetManageDefault(..) => EditPath::Param,
        ConfigEdit::SetPreviousDefault(..) => EditPath::Param,
        ConfigEdit::SetVolumeBind(..) => EditPath::Param,
    }
}

/// The id of the group of that name: its position in the configuration.
pub open spec fn group_id(groups: Seq<GroupView>, name: Seq<char>) -> Option<GroupId> {
    match group_named(groups, name) {
        Some(i) => Some(GroupId(i as u16)),
        None => None,
    }
}

/// The id of the group of that name: its position in the configuration. Valid
/// as long as `snapshot` is the one that the engine was last built from.
pub fn group_id_for(snapshot: &ConfigSnapshot, name: &str) -> (r: Option<GroupId>)
    ensures
        r == group_id(snapshot.deep_view().groups, name@),
{
    match group_index(&snapshot.groups, name) {
        Some(i) => Some(GroupId(i as u16)),
        None => None,
    }
}

} // verus!
