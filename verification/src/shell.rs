//! What the shell decides: who gets the default output, what the volume keys
//! act on, how push-to-mute holds, and which commands an edit sends to the
//! mixer.
use crate::command::{CommandView, MixerCommand};
use crate::delta::{group_index, group_named, resolve_duck, resolved_duck};
use crate::dsp::{DspParam, DspSpec};
use crate::edit::{group_id, group_id_for, ConfigEdit, EditView};
use crate::float::Float32;
use crate::model::{
    AppConfig, AppView, ConfigSnapshot, DspStageConfig, DspStageView, GroupView, SnapshotView,
};
use crate::sample::{Gain, GroupId};
use crate::sink::{text_of_option, SinkStatus, SinkView};
use crate::text::same_text;
use vstd::prelude::*;

verus! {

/// What a volume key or the bound endpoint acts on.
#[derive(Debug, Clone, PartialEq)]
pub enum VolumeTarget {
    Master,
    Group(String),
}

/// What a [`VolumeTarget`] says.
pub enum TargetView {
    Master,
    Group(Seq<char>),
}

impl DeepView for VolumeTarget {
    type V = TargetView;

    open spec fn deep_view(&self) -> TargetView {
        match self {
            VolumeTarget::Master => TargetView::Master,
            VolumeTarget::Group(name) => TargetView::Group(name@),
        }
    }
}

impl VolumeTarget {
    pub fn same(&self, other: &VolumeTarget) -> (r: bool)
        ensures
            r == (self.deep_view() == other.deep_view()),
    {
        match (self, other) {
            (VolumeTarget::Master, VolumeTarget::Master) => true,
            (VolumeTarget::Group(a), VolumeTarget::Group(b)) => *a == *b,
            _ => false,
        }
    }

    pub fn copy(&self) -> (r: VolumeTarget)
        ensures
            r.deep_view() == self.deep_view(),
    {
        match self {
            VolumeTarget::Master => VolumeTarget::Master,
            VolumeTarget::Group(name) => VolumeTarget::Group(name.clone()),
        }
    }
}

/// True when the configuration has no groups at all.
pub fn needs_onboarding(snapshot: &ConfigSnapshot) -> (r: bool)
    ensures
        r == (snapshot.deep_view().groups.len() == 0),
{
    snapshot.groups.len() == 0
}

/// What prompts taking the sink as the default output.
#[derive(Debug, Clone, Copy, PartialEq, Eq, Structural)]
pub enum AssertTrigger {
    Startup,
    /// The user asked for it.
    UserRequest,
    /// Somebody else changed the default output.
    ExternalDefaultChange,
}

/// One takeover of the default output: the edits that record what is being
/// displaced, and the device to install. The two come together, since a
/// takeover without the record leaves the next quit with nothing to restore.
#[derive(Debug)]
pub struct SinkTakeover {
    pub edits: Vec<ConfigEdit>,
    pub sink: String,
}

/// What a [`SinkTakeover`] holds.
pub struct TakeoverView {
    pub edits: Seq<EditView>,
    pub sink: Seq<char>,
}

impl DeepView for SinkTakeover {
    type V = TakeoverView;

    open spec fn deep_view(&self) -> TakeoverView {
        TakeoverView { edits: self.edits.deep_view(), sink: self.sink@ }
    }
}

/// The edits that record a takeover. What precedes the sink is written only
/// where nothing is on record, and never the sink itself.
pub open spec fn takeover_edits(app: AppView, current_default: Option<Seq<char>>) -> Seq<EditView> {
    let mark = seq![EditView::SetManageDefault(true)];
    match current_default {
        Some(name) => if app.previous_default is None && app.sink_device != Some(name) {
            mark.push(EditView::SetPreviousDefault(Some(name)))
        } else {
            mark
        },
        None => mark,
    }
}

/// The takeover, where there is one: on startup while the user has opted in,
/// or on request, and only for a sink that is there and not the default. A
/// change that somebody else made is never fought.
pub open spec fn planned_takeover(
    app: AppView,
    status: SinkView,
    trigger: AssertTrigger,
    current_default: Option<Seq<char>>,
) -> Option<TakeoverView> {
    if trigger == AssertTrigger::ExternalDefaultChange || (trigger == AssertTrigger::Startup
        && !app.manage_default) {
        None
    } else {
        match status {
            SinkView::NotDefault { sink, current_default: _ } => Some(
                TakeoverView { edits: takeover_edits(app, current_default), sink },
            ),
            _ => None,
        }
    }
}

pub fn take_default_edits(app: &AppConfig, current_default: Option<&str>) -> (r: Vec<ConfigEdit>)
    ensures
        r.deep_view() == takeover_edits(app.deep_view(), text_of_option(current_default)),
{
    let mut edits: Vec<ConfigEdit> = Vec::new();
    edits.push(ConfigEdit::SetManageDefault(true));
    match current_default {
        None => {},
        Some(name) => {
            let is_the_sink = match &app.sink_device {
                Some(sink) => same_text(sink.as_str(), name),
                None => false,
            };
            if app.previous_default.is_none() && !is_the_sink {
                edits.push(ConfigEdit::SetPreviousDefault(Some(name.to_owned())));
            }
        },
    }
    assert(edits.deep_view() =~= takeover_edits(app.deep_view(), text_of_option(current_default)));
    edits
}

pub fn plan_sink_takeover(
    app: &AppConfig,
    status: &SinkStatus,
    trigger: AssertTrigger,
    current_default: Option<&str>,
) -> (r: Option<SinkTakeover>)
    ensures
        r.deep_view() == planned_takeover(
            app.deep_view(),
            status.deep_view(),
            trigger,
            text_of_option(current_default),
        ),
{
    if trigger == AssertTrigger::ExternalDefaultChange {
        return None;
    }
    if trigger == AssertTrigger::Startup && !app.manage_default {
        return None;
    }
    match status {
        SinkStatus::NotDefault { sink, current_default: _ } => Some(
            SinkTakeover { edits: take_default_edits(app, current_default), sink: sink.clone() },
        ),
        _ => None,
    }
}

/// The edits after a restore was tried. A restore that failed writes nothing:
/// the record is the only way back.
pub fn post_restore_edits(restore_succeeded: bool) -> (r: Vec<ConfigEdit>)
    ensures
        r.deep_view() == if restore_succeeded {
            seq![EditView::SetPreviousDefault(None)]
        } else {
            Seq::empty()
        },
{
    let mut edits: Vec<ConfigEdit> = Vec::new();
    if restore_succeeded {
        edits.push(ConfigEdit::SetPreviousDefault(None));
    }
    assert(edits.deep_view() =~= if restore_succeeded {
        seq![EditView::SetPreviousDefault(None)]
    } else {
        Seq::empty()
    });
    edits
}

/// A takeover never fights a change that somebody else made, and on startup
/// it needs the user's consent.
pub proof fn takeovers_are_never_unasked(
    app: AppView,
    status: SinkView,
    current_default: Option<Seq<char>>,
)
    ensures
        planned_takeover(app, status, AssertTrigger::ExternalDefaultChange, current_default)
            is None,
        !app.manage_default ==> planned_takeover(
            app,
            status,
            AssertTrigger::Startup,
            current_default,
        ) is None,
{
}

/// Every takeover records the displaced device where none is on record: a
/// known default that is not the sink itself. A record is never overwritten,
/// and the sink is never what is recorded.
pub proof fn takeovers_record_what_they_displace(
    app: AppView,
    status: SinkView,
    trigger: AssertTrigger,
    current_default: Option<Seq<char>>,
)
    ensures
        planned_takeover(app, status, trigger, current_default) matches Some(takeover) ==> {
            &&& takeover.edits.contains(EditView::SetManageDefault(true))
            &&& (app.previous_default is None && current_default is Some && current_default
                != app.sink_device) ==> takeover.edits.contains(
                EditView::SetPreviousDefault(current_default),
            )
            &&& forall|device: Option<Seq<char>>| #[trigger]
                takeover.edits.contains(EditView::SetPreviousDefault(device))
                    ==> app.previous_default is None && device is Some && device != app.sink_device
        },
{
    if planned_takeover(app, status, trigger, current_default) is Some {
        let edits = takeover_edits(app, current_default);
        assert(edits[0] == EditView::SetManageDefault(true));
        if app.previous_default is None && current_default is Some && current_default
            != app.sink_device {
            assert(edits[1] == EditView::SetPreviousDefault(current_default));
        }
    }
}

/// The gain and mute of a target; none for a group that is no longer there.
pub open spec fn state_of(s: SnapshotView, target: TargetView) -> Option<(Float32, bool)> {
    match target {
        TargetView::Master => Some((s.master, s.muted)),
        TargetView::Group(name) => match group_named(s.groups, name) {
            Some(i) => Some((s.groups[i].gain, s.groups[i].muted)),
            None => None,
        },
    }
}

pub fn target_state(snapshot: &ConfigSnapshot, target: &VolumeTarget) -> (r: Option<(Gain, bool)>)
    ensures
        match r {
            Some(found) => state_of(snapshot.deep_view(), target.deep_view()) == Some(
                (found.0.deep_view(), found.1),
            ),
            None => state_of(snapshot.deep_view(), target.deep_view()) is None,
        },
{
    match target {
        VolumeTarget::Master => Some((snapshot.master, snapshot.muted)),
        VolumeTarget::Group(name) => match group_index(&snapshot.groups, name) {
            Some(i) => Some((snapshot.groups[i].gain, snapshot.groups[i].muted)),
            None => None,
        },
    }
}

/// What a bound target holds, to be pushed outward when the binding moves.
pub fn bound_target_values(snapshot: &ConfigSnapshot, target: &VolumeTarget) -> (r: Option<
    (Gain, bool),
>)
    ensures
        match r {
            Some(found) => state_of(snapshot.deep_view(), target.deep_view()) == Some(
                (found.0.deep_view(), found.1),
            ),
            None => state_of(snapshot.deep_view(), target.deep_view()) is None,
        },
{
    target_state(snapshot, target)
}

/// What push-to-mute reacts to. A press carries the mute state as it is, not
/// as it is remembered, so a missed release heals itself.
#[derive(Debug, Clone, Copy)]
pub enum HoldEvent {
    Pressed { actual_muted: bool },
    Released,
    Expired,
}

#[derive(Debug, Clone, Copy, PartialEq, Eq, Structural)]
pub struct HoldState {
    pub held: bool,
    pub restore_to: bool,
}

impl Default for HoldState {
    fn default() -> (r: HoldState)
        ensures
            r == (HoldState { held: false, restore_to: false }),
    {
        HoldState { held: false, restore_to: false }
    }
}

/// The next state, and the mute state to apply now if there is one.
pub open spec fn hold_step(state: HoldState, event: HoldEvent) -> (HoldState, Option<bool>) {
    match event {
        HoldEvent::Pressed { actual_muted } => (
            HoldState { held: true, restore_to: actual_muted },
            Some(true),
        ),
        _ => if state.held {
            (HoldState { held: false, restore_to: false }, Some(state.restore_to))
        } else {
            (state, None)
        },
    }
}

pub fn push_to_mute(state: HoldState, event: HoldEvent) -> (r: (HoldState, Option<bool>))
    ensures
        r == hold_step(state, event),
{
    match event {
        HoldEvent::Pressed { actual_muted } => (
            HoldState { held: true, restore_to: actual_muted },
            Some(true),
        ),
        HoldEvent::Released | HoldEvent::Expired => {
            if state.held {
                (HoldState::default(), Some(state.restore_to))
            } else {
                (state, None)
            }
        },
    }
}

/// A press mutes, and the release or the expiry after it brings back the mute
/// state that was there, whatever came before the press. What follows finds
/// nothing held.
pub proof fn a_hold_restores_what_was_there(
    state: HoldState,
    actual_muted: bool,
    end: HoldEvent,
    stray: HoldEvent,
)
    requires
        !(end is Pressed),
        !(stray is Pressed),
    ensures
        ({
            let pressed = hold_step(state, HoldEvent::Pressed { actual_muted });
            let ended = hold_step(pressed.0, end);
            &&& pressed.1 == Some(true)
            &&& ended.1 == Some(actual_muted)
            &&& hold_step(ended.0, stray) == (ended.0, None::<bool>)
        }),
{
}

/// The bound target: `master`, or a group by name.
pub open spec fn bound_to(app: AppView) -> Option<TargetView> {
    match app.volume_bind {
        None => None,
        Some(name) => if name == "master"@ {
            Some(TargetView::Master)
        } else {
            Some(TargetView::Group(name))
        },
    }
}

pub fn bound_target(app: &AppConfig) -> (r: Option<VolumeTarget>)
    ensures
        r.deep_view() == bound_to(app.deep_view()),
{
    match &app.volume_bind {
        None => None,
        Some(name) => {
            if same_text(name.as_str(), "master") {
                Some(VolumeTarget::Master)
            } else {
                Some(VolumeTarget::Group(name.clone()))
            }
        },
    }
}

/// Nothing can safely be mirrored to the endpoint: nothing is bound, the bound
/// group is gone, or it plays on the default output itself and would be
/// attenuated twice. The master plays on no single device.
pub open spec fn suspended(s: SnapshotView, default_output: Option<Seq<char>>) -> bool {
    match bound_to(s.app) {
        None => true,
        Some(TargetView::Master) => false,
        Some(TargetView::Group(name)) => match group_named(s.groups, name) {
            None => true,
            Some(i) => Some(s.groups[i].output_device) == default_output,
        },
    }
}

pub fn compute_suspended(snapshot: &ConfigSnapshot, default_output: &Option<String>) -> (r: bool)
    ensures
        r == suspended(snapshot.deep_view(), default_output.deep_view()),
{
    match bound_target(&snapshot.app) {
        None => true,
        Some(VolumeTarget::Master) => false,
        Some(VolumeTarget::Group(name)) => match group_index(&snapshot.groups, &name) {
            None => true,
            Some(i) => match default_output {
                Some(device) => snapshot.groups[i].output_device == *device,
                None => false,
            },
        },
    }
}

/// The edit changes the gain of the target.
pub open spec fn sets_gain_of(edit: EditView, target: TargetView) -> bool {
    match edit {
        EditView::SetMaster(_) => target is Master,
        EditView::SetGroupGain(name, _) => target == TargetView::Group(name),
        _ => false,
    }
}

/// The edit changes the mute of the target.
pub open spec fn sets_mute_of(edit: EditView, target: TargetView) -> bool {
    match edit {
        EditView::SetMuted(_) => target is Master,
        EditView::SetGroupMute(name, _) => target == TargetView::Group(name),
        _ => false,
    }
}

/// Some edit changes the gain of the target.
pub open spec fn gain_touched(edits: Seq<EditView>, target: TargetView) -> bool {
    exists|i: int| 0 <= i < edits.len() && sets_gain_of(#[trigger] edits[i], target)
}

/// Some edit changes the mute of the target.
pub open spec fn mute_touched(edits: Seq<EditView>, target: TargetView) -> bool {
    exists|i: int| 0 <= i < edits.len() && sets_mute_of(#[trigger] edits[i], target)
}

fn names_target(target: &VolumeTarget, name: &str) -> (r: bool)
    ensures
        r == (target.deep_view() == TargetView::Group(name@)),
{
    match target {
        VolumeTarget::Group(bound) => same_text(bound, name),
        VolumeTarget::Master => false,
    }
}

fn is_master(target: &VolumeTarget) -> (r: bool)
    ensures
        r == target.deep_view() is Master,
{
    match target {
        VolumeTarget::Master => true,
        VolumeTarget::Group(_) => false,
    }
}

pub fn touches_gain(edits: &Vec<ConfigEdit>, target: &VolumeTarget) -> (r: bool)
    ensures
        r == gain_touched(edits.deep_view(), target.deep_view()),
{
    let mut i: usize = 0;
    while i < edits.len()
        invariant
            i <= edits.len(),
            forall|j: int|
                0 <= j < i ==> !sets_gain_of(
                    #[trigger] edits.deep_view()[j],
                    target.deep_view(),
                ),
        decreases edits.len() - i,
    {
        let hit = match &edits[i] {
            ConfigEdit::SetMaster(_) => is_master(target),
            ConfigEdit::SetGroupGain(name, _) => names_target(target, name),
            _ => false,
        };
        assert(hit == sets_gain_of(edits.deep_view()[i as int], target.deep_view()));
        if hit {
            return true;
        }
        i = i + 1;
    }
    assert(edits.deep_view().len() == edits@.len());
    false
}

pub fn touches_mute(edits: &Vec<ConfigEdit>, target: &VolumeTarget) -> (r: bool)
    ensures
        r == mute_touched(edits.deep_view(), target.deep_view()),
{
    let mut i: usize = 0;
    while i < edits.len()
        invariant
            i <= edits.len(),
            forall|j: int|
                0 <= j < i ==> !sets_mute_of(
                    #[trigger] edits.deep_view()[j],
                    target.deep_view(),
                ),
        decreases edits.len() - i,
    {
        let hit = match &edits[i] {
            ConfigEdit::SetMuted(_) => is_master(target),
            ConfigEdit::SetGroupMute(name, _) => names_target(target, name),
            _ => false,
        };
        assert(hit == sets_mute_of(edits.deep_view()[i as int], target.deep_view()));
        if hit {
            return true;
        }
        i = i + 1;
    }
    assert(edits.deep_view().len() == edits@.len());
    false
}

/// The edit that gives the target a gain.
pub open spec fn gain_edit_of(target: TargetView, gain: Float32) -> EditView {
    match target {
        TargetView::Master => EditView::SetMaster(gain),
        TargetView::Group(name) => EditView::SetGroupGain(name, gain),
    }
}

/// The edit that mutes or unmutes the target.
pub open spec fn mute_edit_of(target: TargetView, muted: bool) -> EditView {
    match target {
        TargetView::Master => EditView::SetMuted(muted),
        TargetView::Group(name) => EditView::SetGroupMute(name, muted),
    }
}

pub fn gain_edit(target: &VolumeTarget, gain: Gain) -> (r: ConfigEdit)
    ensures
        r.deep_view() == gain_edit_of(target.deep_view(), gain.deep_view()),
{
    match target {
        VolumeTarget::Master => ConfigEdit::SetMaster(gain),
        VolumeTarget::Group(name) => ConfigEdit::SetGroupGain(name.clone(), gain),
    }
}

pub fn mute_edit(target: &VolumeTarget, muted: bool) -> (r: ConfigEdit)
    ensures
        r.deep_view() == mute_edit_of(target.deep_view(), muted),
{
    match target {
        VolumeTarget::Master => ConfigEdit::SetMuted(muted),
        VolumeTarget::Group(name) => ConfigEdit::SetGroupMute(name.clone(), muted),
    }
}

/// The edits that adopt what the endpoint reports: its level where that moved,
/// its mute where that differs. Each is checked on its own, so a turn of the
/// volume does not also write the mute that it repeats.
pub fn adopt_edits(
    target: &VolumeTarget,
    moved_to: Option<Gain>,
    endpoint_muted: bool,
    target_muted: bool,
) -> (r: Vec<ConfigEdit>)
    ensures
        r.deep_view() == (match moved_to {
            Some(gain) => seq![gain_edit_of(target.deep_view(), gain.deep_view())],
            None => Seq::empty(),
        }) + (if endpoint_muted != target_muted {
            seq![mute_edit_of(target.deep_view(), endpoint_muted)]
        } else {
            Seq::empty()
        }),
{
    let mut edits: Vec<ConfigEdit> = Vec::new();
    match moved_to {
        Some(gain) => {
            edits.push(gain_edit(target, gain));
        },
        None => {},
    }
    if endpoint_muted != target_muted {
        edits.push(mute_edit(target, endpoint_muted));
    }
    assert(edits.deep_view() =~= (match moved_to {
        Some(gain) => seq![gain_edit_of(target.deep_view(), gain.deep_view())],
        None => Seq::empty(),
    }) + (if endpoint_muted != target_muted {
        seq![mute_edit_of(target.deep_view(), endpoint_muted)]
    } else {
        Seq::empty()
    }));
    edits
}

/// Position of the first limiter at or after `from`.
pub open spec fn limiter_from(stages: Seq<DspStageView>, from: int) -> Option<int>
    decreases stages.len() - from,
{
    if from < 0 || from >= stages.len() {
        None
    } else if stages[from].spec is Limiter {
        Some(from)
    } else {
        limiter_from(stages, from + 1)
    }
}

fn limiter_index(stages: &Vec<DspStageConfig>) -> (r: Option<usize>)
    ensures
        match r {
            Some(i) => limiter_from(stages.deep_view(), 0) == Some(i as int),
            None => limiter_from(stages.deep_view(), 0) is None,
        },
{
    let mut i: usize = 0;
    while i < stages.len()
        invariant
            i <= stages.len(),
            limiter_from(stages.deep_view(), 0) == limiter_from(stages.deep_view(), i as int),
        decreases stages.len() - i,
    {
        assert(stages.deep_view()[i as int] == stages@[i as int].deep_view());
        match &stages[i].spec {
            DspSpec::Limiter { .. } => {
                return Some(i);
            },
            DspSpec::Eq { .. } => {},
        }
        i = i + 1;
    }
    None
}

/// The command that carries an edit to the mixer, where there is one. An edit
/// of a group that is not there has none.
pub open spec fn command_of(edit: EditView, groups: Seq<GroupView>) -> Option<CommandView> {
    match edit {
        EditView::SetGroupGain(name, gain) => match group_id(groups, name) {
            Some(id) => Some(CommandView::SetGroupGain(id, gain)),
            None => None,
        },
        EditView::SetMaster(gain) => Some(CommandView::SetMaster(gain)),
        EditView::SetMuted(muted) => Some(CommandView::SetMuted(muted)),
        EditView::SetFollowMaster(name, follow) => match group_id(groups, name) {
            Some(id) => Some(CommandView::SetFollowMaster(id, follow)),
            None => None,
        },
        EditView::SetGroupMute(name, muted) => match group_id(groups, name) {
            Some(id) => Some(CommandView::SetGroupMute(id, muted)),
            None => None,
        },
        EditView::SetEqBand(name, stage, band, spec) => match group_id(groups, name) {
            Some(id) => Some(
                CommandView::SetDspParam { group: id, stage, param: DspParam::EqBand { band, spec } },
            ),
            None => None,
        },
        EditView::SetLimiterCeiling(name, ceiling_db) => match group_named(groups, name) {
            Some(i) => match limiter_from(groups[i].dsp, 0) {
                Some(stage) => Some(
                    CommandView::SetDspParam {
                        group: GroupId(i as u16),
                        stage: stage as usize,
                        param: DspParam::LimiterCeilingDb(ceiling_db),
                    },
                ),
                None => None,
            },
            None => None,
        },
        EditView::SetDspBypass(name, stage, bypassed) => match group_id(groups, name) {
            Some(id) => Some(CommandView::SetDspBypass { group: id, stage, bypassed }),
            None => None,
        },
        EditView::SetDuck(name, duck) => match group_id(groups, name) {
            Some(id) => Some(
                CommandView::SetDuck { group: id, duck: resolved_duck(groups, duck) },
            ),
            None => None,
        },
        _ => None,
    }
}

/// The commands of the first `n` edits, in order.
pub open spec fn commands_upto(edits: Seq<EditView>, groups: Seq<GroupView>, n: int) -> Seq<
    CommandView,
>
    decreases n,
{
    if n <= 0 {
        Seq::empty()
    } else {
        match command_of(edits[n - 1], groups) {
            Some(command) => commands_upto(edits, groups, n - 1).push(command),
            None => commands_upto(edits, groups, n - 1),
        }
    }
}

/// The commands of the edits, in order.
pub open spec fn commands_of(edits: Seq<EditView>, groups: Seq<GroupView>) -> Seq<CommandView> {
    commands_upto(edits, groups, edits.len() as int)
}

fn edit_to_command(edit: &ConfigEdit, current: &ConfigSnapshot) -> (r: Option<MixerCommand>)
    ensures
        r.deep_view() == command_of(edit.deep_view(), current.deep_view().groups),
{
    match edit {
        ConfigEdit::SetGroupGain(name, gain) => match group_id_for(current, name) {
            Some(id) => Some(MixerCommand::SetGroupGain(id, *gain)),
            None => None,
        },
        ConfigEdit::SetMaster(gain) => Some(MixerCommand::SetMaster(*gain)),
        ConfigEdit::SetMuted(muted) => Some(MixerCommand::SetMuted(*muted)),
        ConfigEdit::SetFollowMaster(name, follow) => match group_id_for(current, name) {
            Some(id) => Some(MixerCommand::SetFollowMaster(id, *follow)),
            None => None,
        },
        ConfigEdit::SetGroupMute(name, muted) => match group_id_for(current, name) {
            Some(id) => Some(MixerCommand::SetGroupMute(id, *muted)),
            None => None,
        },
        ConfigEdit::SetEqBand(name, stage, band, spec) => match group_id_for(current, name) {
            Some(id) => Some(
                MixerCommand::SetDspParam {
                    group: id,
                    stage: *stage,
                    param: DspParam::EqBand { band: *band, spec: *spec },
                },
            ),
            None => None,
        },
        ConfigEdit::SetLimiterCeiling(name, ceiling_db) => match group_index(
            &current.groups,
            name,
        ) {
            Some(i) => match limiter_index(&current.groups[i].dsp) {
                Some(stage) => Some(
                    MixerCommand::SetDspParam {
                        group: GroupId(i as u16),
                        stage,
                        param: DspParam::LimiterCeilingDb(*ceiling_db),
                    },
                ),
                None => None,
            },
            None => None,
        },
        ConfigEdit::SetDspBypass(name, stage, bypassed) => match group_id_for(current, name) {
            Some(id) => Some(
                MixerCommand::SetDspBypass { group: id, stage: *stage, bypassed: *bypassed },
            ),
            None => None,
        },
        ConfigEdit::SetDuck(name, duck) => match group_id_for(current, name) {
            Some(id) => Some(
                MixerCommand::SetDuck { group: id, duck: resolve_duck(&current.groups, duck) },
            ),
            None => None,
        },
        _ => None,
    }
}

/// The commands that carry the edits to the running mixer. Edits that need a
/// rebuild or a swap, and those that never reach the mixer, have none.
pub fn edits_to_mixer_commands(edits: &Vec<ConfigEdit>, current: &ConfigSnapshot) -> (r: Vec<
    MixerCommand,
>)
    ensures
        r.deep_view() == commands_of(edits.deep_view(), current.deep_view().groups),
{
    let mut out: Vec<MixerCommand> = Vec::new();
    assert(out.deep_view() =~= Seq::empty());
    let mut i: usize = 0;
    while i < edits.len()
        invariant
            i <= edits.len(),
            out.deep_view() == commands_upto(
                edits.deep_view(),
                current.deep_view().groups,
                i as int,
            ),
        decreases edits.len() - i,
    {
        let ghost before = out.deep_view();
        assert(edits.deep_view()[i as int] == edits@[i as int].deep_view());
        match edit_to_command(&edits[i], current) {
            Some(command) => {
                out.push(command);
                assert(out.deep_view() =~= before.push(command.deep_view()));
            },
            None => {},
        }
        i = i + 1;
    }
    out
}

/// A sink that is there and not the default is taken whenever the user asks, and at
/// the start where the user agreed; and it is the sink that becomes the default.
pub proof fn an_asked_takeover_takes_the_sink(
    app: AppView,
    status: SinkView,
    trigger: AssertTrigger,
    current_default: Option<Seq<char>>,
)
    requires
        trigger == AssertTrigger::UserRequest || (trigger == AssertTrigger::Startup
            && app.manage_default),
    ensures
        match status {
            SinkView::NotDefault { sink, current_default: _ } => planned_takeover(
                app,
                status,
                trigger,
                current_default,
            ) matches Some(takeover) && takeover.sink == sink,
            _ => planned_takeover(app, status, trigger, current_default) is None,
        },
{
}

} // verus!
