//! The one place where intents, engine events and file changes meet.
//!
//! The dispatcher holds the state and decides; it performs nothing itself.
//! Each decision is a list of [`Effect`]s to be carried out in order. Effects
//! whose outcome matters are answered by a further call: a write of the store
//! by [`Dispatcher::stored`], a question about devices by
//! [`Dispatcher::default_output_is`] or [`Dispatcher::devices_are`], a
//! computation with levels by [`Dispatcher::step`] or
//! [`Dispatcher::reconcile`].
use crate::action::{ActionView, ShellAction, VolumeEvent};
use crate::command::{CommandView, MixerCommand};
use crate::delta::{chain_specs, delta_of, diff, group_index, group_named, specs_of};
use crate::dsp::{DspSpec, DspSpecView};
use crate::edit::{
    edit_path, group_id, group_id_for, path_of, ConfigEdit, EditPath, EditView,
};
use crate::float::Float32;
use crate::levels::{asks, moved_to, step_gain, steps_to};
use crate::model::{ConfigSnapshot, GroupView, SnapshotView};
use crate::profiles::{apply_profile, profile_edits};
use crate::ramp::Arithmetic;
use crate::sample::{Gain, GroupId};
use crate::shell::{
    adopt_edits, bound_target, bound_to, commands_of, compute_suspended, edits_to_mixer_commands,
    gain_edit, gain_edit_of, gain_touched, hold_step, mute_edit_of, mute_touched,
    plan_sink_takeover, planned_takeover, post_restore_edits, push_to_mute, state_of, suspended,
    target_state, touches_gain, touches_mute, AssertTrigger, HoldEvent, HoldState, TargetView,
    VolumeTarget,
};
use crate::sink::{resolve_sink_status, sink_status, SinkStatus, SinkView};
use crate::text::copy_option;
use crate::tray::{build_tray_model, tray_of, TrayModel, TrayView};
use vstd::prelude::*;
use vstd::seq_lib::lemma_seq_concat_contains_all_elements;

verus! {

/// How long push-to-mute may be held: half a minute.
pub const MAX_HOLD_MS: u64 = 30_000;

/// Which path waits for the store to write a batch.
#[derive(Debug, Clone, Copy, PartialEq, Eq, Structural)]
pub enum Route {
    Params,
    Structure,
    DspChains,
    Spatial,
    Profile,
}

/// Outside work, to be carried out in order.
#[derive(Debug)]
pub enum Effect {
    /// Commands for the running mixer.
    SendCommands(Vec<MixerCommand>),
    /// A batch for the store; where it is written, the answer is
    /// [`Dispatcher::stored`].
    WriteStore { edits: Vec<ConfigEdit>, route: Route },
    /// A rebuild of the graph from the configuration that was just written.
    Rebuild,
    /// New match rules and exclusions for the routing, from the same.
    UpdateRules,
    SwapChains(Vec<(GroupId, Vec<DspSpec>)>),
    SwapRenders(Vec<(GroupId, bool)>),
    /// Start with the system, or no longer.
    SetAutostart(bool),
    /// Stop or resume mirroring the bound target to the endpoint.
    SetSuspended(bool),
    ShowTray(TrayModel),
    /// The level of the bound target, for the endpoint.
    PushLevel(Gain),
    PushMuted(bool),
    /// Make the device the default output.
    InstallDefault(String),
    /// Open the endpoint of the new default output.
    Rebind,
    /// Ask for the default output; the answer is
    /// [`Dispatcher::default_output_is`].
    ReadDefaultOutput,
    /// Ask for the devices; the answer is [`Dispatcher::devices_are`].
    ReadDevices,
    /// Hold what the endpoint reports against the target, by
    /// [`Dispatcher::reconcile`].
    Reconcile {
        event: VolumeEvent,
        target: VolumeTarget,
        gain: Gain,
        muted: bool,
        suspended: bool,
    },
    /// Step the level, by [`Dispatcher::step`].
    StepGain { target: VolumeTarget, gain: Gain, delta_db: Float32 },
    /// Start the clock of the hold, or stop it.
    ArmHold,
    DisarmHold,
    FocusWindow,
}

/// What an [`Effect`] says.
pub enum EffectView {
    SendCommands(Seq<CommandView>),
    WriteStore { edits: Seq<EditView>, route: Route },
    Rebuild,
    UpdateRules,
    SwapChains(Seq<(GroupId, Seq<DspSpecView>)>),
    SwapRenders(Seq<(GroupId, bool)>),
    SetAutostart(bool),
    SetSuspended(bool),
    ShowTray(TrayView),
    PushLevel(Float32),
    PushMuted(bool),
    InstallDefault(Seq<char>),
    Rebind,
    ReadDefaultOutput,
    ReadDevices,
    Reconcile {
        event: VolumeEvent,
        target: TargetView,
        gain: Float32,
        muted: bool,
        suspended: bool,
    },
    StepGain { target: TargetView, gain: Float32, delta_db: Float32 },
    ArmHold,
    DisarmHold,
    FocusWindow,
}

impl DeepView for Effect {
    type V = EffectView;

    open spec fn deep_view(&self) -> EffectView {
        match self {
            Effect::SendCommands(commands) => EffectView::SendCommands(commands.deep_view()),
            Effect::WriteStore { edits, route } => EffectView::WriteStore {
                edits: edits.deep_view(),
                route: *route,
            },
            Effect::Rebuild => EffectView::Rebuild,
            Effect::UpdateRules => EffectView::UpdateRules,
            Effect::SwapChains(chains) => EffectView::SwapChains(chains.deep_view()),
            Effect::SwapRenders(changes) => EffectView::SwapRenders(changes.deep_view()),
            Effect::SetAutostart(on) => EffectView::SetAutostart(*on),
            Effect::SetSuspended(on) => EffectView::SetSuspended(*on),
            Effect::ShowTray(model) => EffectView::ShowTray(model.deep_view()),
            Effect::PushLevel(gain) => EffectView::PushLevel(gain.deep_view()),
            Effect::PushMuted(muted) => EffectView::PushMuted(*muted),
            Effect::InstallDefault(name) => EffectView::InstallDefault(name@),
            Effect::Rebind => EffectView::Rebind,
            Effect::ReadDefaultOutput => EffectView::ReadDefaultOutput,
            Effect::ReadDevices => EffectView::ReadDevices,
            Effect::Reconcile { event, target, gain, muted, suspended } => EffectView::Reconcile {
                event: *event,
                target: target.deep_view(),
                gain: gain.deep_view(),
                muted: *muted,
                suspended: *suspended,
            },
            Effect::StepGain { target, gain, delta_db } => EffectView::StepGain {
                target: target.deep_view(),
                gain: gain.deep_view(),
                delta_db: *delta_db,
            },
            Effect::ArmHold => EffectView::ArmHold,
            Effect::DisarmHold => EffectView::DisarmHold,
            Effect::FocusWindow => EffectView::FocusWindow,
        }
    }
}

/// The effect alone where it is called for, else nothing.
pub open spec fn effect_when(called_for: bool, effect: EffectView) -> Seq<EffectView> {
    if called_for {
        seq![effect]
    } else {
        Seq::empty()
    }
}

/// The state of the dispatcher.
pub struct DispatcherView {
    pub current: SnapshotView,
    pub generation: u64,
    pub default_output: Option<Seq<char>>,
    pub devices: Seq<Seq<char>>,
    pub sink: SinkView,
    pub hold: HoldState,
    pub first_run: bool,
}

/// What the shell knows: the configuration in force, the devices, and the
/// state of the hold.
pub struct Dispatcher {
    current: ConfigSnapshot,
    generation: u64,
    default_output: Option<String>,
    devices: Vec<String>,
    sink: SinkStatus,
    hold: HoldState,
    first_run: bool,
}

impl DeepView for Dispatcher {
    type V = DispatcherView;

    closed spec fn deep_view(&self) -> DispatcherView {
        DispatcherView {
            current: self.current.deep_view(),
            generation: self.generation,
            default_output: self.default_output.deep_view(),
            devices: self.devices.deep_view(),
            sink: self.sink.deep_view(),
            hold: self.hold,
            first_run: self.first_run,
        }
    }
}

impl DispatcherView {
    /// The state once a configuration is in force. Onboarding ends with the
    /// first group and does not come back.
    pub open spec fn with_current(self, new: SnapshotView) -> DispatcherView {
        DispatcherView {
            current: new,
            sink: sink_status(new.app.sink_device, self.devices, self.default_output),
            first_run: self.first_run && new.groups.len() == 0,
            ..self
        }
    }

    /// The state after one more rebuild of the mixer.
    pub open spec fn rebuilt(self) -> DispatcherView {
        DispatcherView { generation: (self.generation + 1) as u64, ..self }
    }

    /// What follows from a configuration coming into force. The tray is shown
    /// again only where what it shows changed.
    pub open spec fn current_effects(self, new: SnapshotView) -> Seq<EffectView> {
        effect_when(
            self.current.app.autostart != new.app.autostart,
            EffectView::SetAutostart(new.app.autostart),
        ) + seq![EffectView::SetSuspended(suspended(new, self.default_output))] + effect_when(
            tray_of(self.current) != tray_of(new),
            EffectView::ShowTray(tray_of(new)),
        )
    }

    /// What comes of an endpoint that reports a level and a mute.
    pub open spec fn adopted_effects(
        self,
        target: TargetView,
        moved_to: Option<Float32>,
        endpoint_muted: bool,
        target_muted: bool,
    ) -> Seq<EffectView> {
        let edits = (match moved_to {
            Some(gain) => seq![gain_edit_of(target, gain)],
            None => Seq::empty(),
        }) + (if endpoint_muted != target_muted {
            seq![mute_edit_of(target, endpoint_muted)]
        } else {
            Seq::empty()
        });
        if edits.len() == 0 {
            Seq::empty()
        } else {
            self.param_effects(edits)
        }
    }

    /// Edits on the path of parameters: commands to the mixer at once, by the
    /// ids of the configuration in force, and the batch to the store.
    pub open spec fn param_effects(self, edits: Seq<EditView>) -> Seq<EffectView> {
        effect_when(
            commands_of(edits, self.current.groups).len() > 0,
            EffectView::SendCommands(commands_of(edits, self.current.groups)),
        ).push(EffectView::WriteStore { edits, route: Route::Params })
    }

    /// What the endpoint is told of applied edits, by the configuration that
    /// they led to: the level where an edit set the bound target's gain, the
    /// mute where one set its mute.
    pub open spec fn push_effects(self, edits: Seq<EditView>) -> Seq<EffectView> {
        match bound_to(self.current.app) {
            None => Seq::empty(),
            Some(target) => match state_of(self.current, target) {
                None => Seq::empty(),
                Some(state) => {
                    let open = !suspended(self.current, self.default_output);
                    effect_when(
                        gain_touched(edits, target) && open,
                        EffectView::PushLevel(state.0),
                    ) + effect_when(mute_touched(edits, target) && open, EffectView::PushMuted(state.1))
                },
            },
        }
    }

    /// What the endpoint is told when the binding moved: level and mute of the
    /// target that is bound now.
    pub open spec fn rebound_effects(self) -> Seq<EffectView> {
        match bound_to(self.current.app) {
            None => Seq::empty(),
            Some(target) => match state_of(self.current, target) {
                None => Seq::empty(),
                Some(state) => {
                    let open = !suspended(self.current, self.default_output);
                    effect_when(open, EffectView::PushLevel(state.0)) + effect_when(
                        open,
                        EffectView::PushMuted(state.1),
                    )
                },
            },
        }
    }

    /// Taking the sink as the default output: the record first, then the
    /// device.
    pub open spec fn takeover_effects(self, trigger: AssertTrigger) -> Seq<EffectView> {
        match planned_takeover(self.current.app, self.sink, trigger, self.default_output) {
            None => Seq::empty(),
            Some(takeover) => self.param_effects(takeover.edits).push(
                EffectView::InstallDefault(takeover.sink),
            ),
        }
    }

    /// What a step of the hold leads to.
    pub open spec fn hold_effects(self, event: HoldEvent) -> Seq<EffectView> {
        let step = hold_step(self.hold, event);
        seq![
            if step.0.held {
                EffectView::ArmHold
            } else {
                EffectView::DisarmHold
            },
        ] + match step.1 {
            Some(muted) => self.param_effects(seq![EditView::SetMuted(muted)]),
            None => Seq::empty(),
        }
    }
}

/// The edit changes which applications are routed.
pub open spec fn changes_routing(edit: EditView) -> bool {
    edit is SetRules || edit is SetExcluded
}

/// Some edit changes which applications are routed.
pub open spec fn routing_changed(edits: Seq<EditView>) -> bool {
    exists|i: int| 0 <= i < edits.len() && changes_routing(#[trigger] edits[i])
}

/// Some edit moves the binding of the volume keys.
pub open spec fn bind_changed(edits: Seq<EditView>) -> bool {
    exists|i: int| 0 <= i < edits.len() && (#[trigger] edits[i]) is SetVolumeBind
}

/// Some edit needs a rebuild.
pub open spec fn needs_rebuild(edits: Seq<EditView>) -> bool {
    exists|i: int| 0 <= i < edits.len() && path_of(#[trigger] edits[i]) == EditPath::Rebuild
}

/// The group whose chain the edit changes stage by stage.
pub open spec fn restaged(edit: EditView) -> Option<Seq<char>> {
    match edit {
        EditView::AddDspStage(name, _) => Some(name),
        EditView::RemoveDspStage(name, _) => Some(name),
        EditView::SetEqBands(name, _, _) => Some(name),
        _ => None,
    }
}

/// The group whose chain the edit replaces.
pub open spec fn rechained(edit: EditView) -> Option<Seq<char>> {
    match edit {
        EditView::SetDspChain(name, _) => Some(name),
        _ => None,
    }
}

/// The chain of the named group, as it is configured now.
pub open spec fn chain_now(groups: Seq<GroupView>, name: Option<Seq<char>>) -> Seq<
    (GroupId, Seq<DspSpecView>),
> {
    match name {
        None => Seq::empty(),
        Some(name) => match group_named(groups, name) {
            None => Seq::empty(),
            Some(i) => seq![(GroupId(i as u16), specs_of(groups[i].dsp))],
        },
    }
}

/// The chains to swap for the first `n` edits: those that the edits change
/// stage by stage, or those that they replace.
pub open spec fn chains_of(
    edits: Seq<EditView>,
    groups: Seq<GroupView>,
    replaced: bool,
    n: int,
) -> Seq<(GroupId, Seq<DspSpecView>)>
    decreases n,
{
    if n <= 0 {
        Seq::empty()
    } else {
        chains_of(edits, groups, replaced, n - 1) + chain_now(
            groups,
            if replaced {
                rechained(edits[n - 1])
            } else {
                restaged(edits[n - 1])
            },
        )
    }
}

/// The render stages to swap for the first `n` edits.
pub open spec fn renders_of(edits: Seq<EditView>, groups: Seq<GroupView>, n: int) -> Seq<
    (GroupId, bool),
>
    decreases n,
{
    if n <= 0 {
        Seq::empty()
    } else {
        renders_of(edits, groups, n - 1) + match edits[n - 1] {
            EditView::SetSpatial(name, on) => match group_id(groups, name) {
                Some(id) => seq![(id, on)],
                None => Seq::empty(),
            },
            _ => Seq::empty(),
        }
    }
}

/// What follows from a batch that the store wrote.
pub open spec fn stored_step(
    d: DispatcherView,
    route: Route,
    edits: Seq<EditView>,
    new: SnapshotView,
) -> (DispatcherView, Seq<EffectView>) {
    let n = edits.len() as int;
    match route {
        Route::Params => {
            let after = d.with_current(new);
            (
                after,
                effect_when(routing_changed(edits), EffectView::UpdateRules) + d.current_effects(
                    new,
                ) + after.push_effects(edits) + (if bind_changed(edits) {
                    after.rebound_effects()
                } else {
                    Seq::empty()
                }),
            )
        },
        Route::Structure => {
            let after = d.rebuilt();
            (
                after.with_current(new),
                seq![EffectView::Rebuild, EffectView::UpdateRules] + after.current_effects(new),
            )
        },
        Route::DspChains => {
            let chains = chains_of(edits, new.groups, false, n);
            (
                d.with_current(new),
                effect_when(chains.len() > 0, EffectView::SwapChains(chains)) + d.current_effects(
                    new,
                ),
            )
        },
        Route::Spatial => {
            let renders = renders_of(edits, new.groups, n);
            (
                d.with_current(new),
                effect_when(renders.len() > 0, EffectView::SwapRenders(renders))
                    + d.current_effects(new),
            )
        },
        Route::Profile => if needs_rebuild(edits) {
            let after = d.rebuilt();
            (
                after.with_current(new),
                seq![EffectView::Rebuild, EffectView::UpdateRules] + after.current_effects(new)
                    + after.with_current(new).push_effects(edits),
            )
        } else {
            let commands = commands_of(edits, d.current.groups);
            let chains = chains_of(edits, new.groups, true, n);
            let renders = renders_of(edits, new.groups, n);
            let after = d.with_current(new);
            (
                after,
                effect_when(commands.len() > 0, EffectView::SendCommands(commands)) + effect_when(
                    chains.len() > 0,
                    EffectView::SwapChains(chains),
                ) + effect_when(renders.len() > 0, EffectView::SwapRenders(renders))
                    + d.current_effects(new) + after.push_effects(edits),
            )
        },
    }
}

/// What an intent leads to, but for the intent to quit.
pub open spec fn action_step(d: DispatcherView, action: ActionView) -> (
    DispatcherView,
    Seq<EffectView>,
) {
    match action {
        ActionView::EditParams(edits) => (d, d.param_effects(edits)),
        ActionView::EditStructure(edits) => (
            d,
            seq![EffectView::WriteStore { edits, route: Route::Structure }],
        ),
        ActionView::EditDspChains(edits) => (
            d,
            seq![EffectView::WriteStore { edits, route: Route::DspChains }],
        ),
        ActionView::EditSpatial(edits) => (
            d,
            seq![EffectView::WriteStore { edits, route: Route::Spatial }],
        ),
        ActionView::ToggleMute => (
            d,
            d.param_effects(seq![EditView::SetMuted(!d.current.muted)]),
        ),
        ActionView::SetSolo(name, on) => (
            d,
            match group_id(d.current.groups, name) {
                Some(id) => seq![EffectView::SendCommands(seq![CommandView::SetGroupSolo(id, on)])],
                None => Seq::empty(),
            },
        ),
        ActionView::ApplyProfile(name) => (
            d,
            seq![
                EffectView::WriteStore {
                    edits: profile_edits(d.current, name).push(
                        EditView::SetActiveProfile(Some(name)),
                    ),
                    route: Route::Profile,
                },
            ],
        ),
        ActionView::EndpointVolumeChanged(event) => (
            d,
            match bound_to(d.current.app) {
                None => Seq::empty(),
                Some(target) => match state_of(d.current, target) {
                    None => Seq::empty(),
                    Some(state) => seq![
                        EffectView::Reconcile {
                            event,
                            target,
                            gain: state.0,
                            muted: state.1,
                            suspended: suspended(d.current, d.default_output),
                        },
                    ],
                },
            },
        ),
        ActionView::VolumeStep { target, delta_db } => (
            d,
            match state_of(d.current, target) {
                None => Seq::empty(),
                Some(state) => seq![EffectView::StepGain { target, gain: state.0, delta_db }],
            },
        ),
        ActionView::ToggleGroupMute(name) => (
            d,
            match group_named(d.current.groups, name) {
                None => Seq::empty(),
                Some(i) => d.param_effects(
                    seq![EditView::SetGroupMute(name, !d.current.groups[i].muted)],
                ),
            },
        ),
        ActionView::PushToMute(pressed) => {
            let event = if pressed {
                HoldEvent::Pressed { actual_muted: d.current.muted }
            } else {
                HoldEvent::Released
            };
            (
                DispatcherView { hold: hold_step(d.hold, event).0, ..d },
                d.hold_effects(event),
            )
        },
        ActionView::DefaultDeviceChanged => (d, seq![EffectView::ReadDefaultOutput]),
        ActionView::DevicesChanged => (d, seq![EffectView::ReadDevices]),
        ActionView::TakeDefaultOutput => (d, d.takeover_effects(AssertTrigger::UserRequest)),
        ActionView::ShowSettings => (d, seq![EffectView::FocusWindow]),
        ActionView::Quit => (d, Seq::empty()),
    }
}

/// What follows from a configuration that somebody else wrote: every change
/// is picked up. The store's own write only comes into force: its effects
/// were carried out when it was made.
pub open spec fn watched_step(d: DispatcherView, new: SnapshotView, is_echo: bool) -> (
    DispatcherView,
    Seq<EffectView>,
) {
    if is_echo {
        (d.with_current(new), d.current_effects(new))
    } else {
        let delta = delta_of(d.current, new);
        if delta.structural {
            let after = d.rebuilt();
            (
                after.with_current(new),
                seq![EffectView::Rebuild, EffectView::UpdateRules] + after.current_effects(new),
            )
        } else {
            (
                d.with_current(new),
                effect_when(
                    delta.params.len() > 0,
                    EffectView::SendCommands(delta.params),
                ) + effect_when(
                    delta.dsp_chains is Some,
                    EffectView::SwapChains(delta.dsp_chains->0),
                ) + effect_when(
                    delta.spatial is Some,
                    EffectView::SwapRenders(delta.spatial->0),
                ) + effect_when(
                    delta.rules is Some || delta.excluded is Some,
                    EffectView::UpdateRules,
                ) + d.current_effects(new),
            )
        }
    }
}

fn push_effect_when(effects: &mut Vec<Effect>, called_for: bool, effect: Effect)
    ensures
        final(effects).deep_view() == old(effects).deep_view() + effect_when(
            called_for,
            effect.deep_view(),
        ),
{
    if called_for {
        effects.push(effect);
    }
    assert(effects.deep_view() =~= old(effects).deep_view() + effect_when(
        called_for,
        effect.deep_view(),
    ));
}

fn push_effect(effects: &mut Vec<Effect>, effect: Effect)
    ensures
        final(effects).deep_view() == old(effects).deep_view().push(effect.deep_view()),
{
    effects.push(effect);
    assert(effects.deep_view() =~= old(effects).deep_view().push(effect.deep_view()));
}

fn no_effects() -> (r: Vec<Effect>)
    ensures
        r.deep_view() == Seq::<EffectView>::empty(),
{
    let r: Vec<Effect> = Vec::new();
    assert(r.deep_view() =~= Seq::empty());
    r
}

fn one_effect(effect: Effect) -> (r: Vec<Effect>)
    ensures
        r.deep_view() == seq![effect.deep_view()],
{
    let mut r = no_effects();
    push_effect(&mut r, effect);
    assert(r.deep_view() =~= seq![effect.deep_view()]);
    r
}

fn one_edit(edit: ConfigEdit) -> (r: Vec<ConfigEdit>)
    ensures
        r.deep_view() == seq![edit.deep_view()],
{
    let mut r: Vec<ConfigEdit> = Vec::new();
    r.push(edit);
    assert(r.deep_view() =~= seq![edit.deep_view()]);
    r
}

fn any_routing_change(edits: &Vec<ConfigEdit>) -> (r: bool)
    ensures
        r == routing_changed(edits.deep_view()),
{
    let mut i: usize = 0;
    while i < edits.len()
        invariant
            i <= edits.len(),
            forall|j: int| 0 <= j < i ==> !changes_routing(#[trigger] edits.deep_view()[j]),
        decreases edits.len() - i,
    {
        let hit = match &edits[i] {
            ConfigEdit::SetRules(..) | ConfigEdit::SetExcluded(..) => true,
            _ => false,
        };
        assert(hit == changes_routing(edits.deep_view()[i as int]));
        if hit {
            return true;
        }
        i = i + 1;
    }
    assert(edits.deep_view().len() == edits@.len());
    false
}

fn any_bind_change(edits: &Vec<ConfigEdit>) -> (r: bool)
    ensures
        r == bind_changed(edits.deep_view()),
{
    let mut i: usize = 0;
    while i < edits.len()
        invariant
            i <= edits.len(),
            forall|j: int| 0 <= j < i ==> !((#[trigger] edits.deep_view()[j]) is SetVolumeBind),
        decreases edits.len() - i,
    {
        let hit = match &edits[i] {
            ConfigEdit::SetVolumeBind(..) => true,
            _ => false,
        };
        assert(hit == edits.deep_view()[i as int] is SetVolumeBind);
        if hit {
            return true;
        }
        i = i + 1;
    }
    assert(edits.deep_view().len() == edits@.len());
    false
}

fn any_rebuild(edits: &Vec<ConfigEdit>) -> (r: bool)
    ensures
        r == needs_rebuild(edits.deep_view()),
{
    let mut i: usize = 0;
    while i < edits.len()
        invariant
            i <= edits.len(),
            forall|j: int|
                0 <= j < i ==> path_of(#[trigger] edits.deep_view()[j]) != EditPath::Rebuild,
        decreases edits.len() - i,
    {
        assert(edits.deep_view()[i as int] == edits@[i as int].deep_view());
        if edit_path(&edits[i]) == EditPath::Rebuild {
            return true;
        }
        i = i + 1;
    }
    assert(edits.deep_view().len() == edits@.len());
    false
}

fn collect_chains(edits: &Vec<ConfigEdit>, new: &ConfigSnapshot, replaced: bool) -> (r: Vec<
    (GroupId, Vec<DspSpec>),
>)
    ensures
        r.deep_view() == chains_of(
            edits.deep_view(),
            new.deep_view().groups,
            replaced,
            edits@.len() as int,
        ),
{
    let mut out: Vec<(GroupId, Vec<DspSpec>)> = Vec::new();
    assert(out.deep_view() =~= Seq::empty());
    let mut i: usize = 0;
    while i < edits.len()
        invariant
            i <= edits.len(),
            out.deep_view() == chains_of(
                edits.deep_view(),
                new.deep_view().groups,
                replaced,
                i as int,
            ),
        decreases edits.len() - i,
    {
        let ghost before = out.deep_view();
        assert(edits.deep_view()[i as int] == edits@[i as int].deep_view());
        let name: Option<&String> = match &edits[i] {
            ConfigEdit::AddDspStage(name, _) => if replaced {
                None
            } else {
                Some(name)
            },
            ConfigEdit::RemoveDspStage(name, _) => if replaced {
                None
            } else {
                Some(name)
            },
            ConfigEdit::SetEqBands(name, ..) => if replaced {
                None
            } else {
                Some(name)
            },
            ConfigEdit::SetDspChain(name, _) => if replaced {
                Some(name)
            } else {
                None
            },
            _ => None,
        };
        match name {
            Some(name) => match group_index(&new.groups, name) {
                Some(g) => {
                    let chain = chain_specs(&new.groups[g].dsp);
                    let id = GroupId(g as u16);
                    out.push((id, chain));
                    assert(out.deep_view() =~= before + seq![(id, chain.deep_view())]);
                },
                None => {
                    assert(out.deep_view() =~= before + Seq::empty());
                },
            },
            None => {
                assert(out.deep_view() =~= before + Seq::empty());
            },
        }
        i = i + 1;
    }
    out
}

fn collect_renders(edits: &Vec<ConfigEdit>, new: &ConfigSnapshot) -> (r: Vec<(GroupId, bool)>)
    ensures
        r.deep_view() == renders_of(
            edits.deep_view(),
            new.deep_view().groups,
            edits@.len() as int,
        ),
{
    let mut out: Vec<(GroupId, bool)> = Vec::new();
    assert(out.deep_view() =~= Seq::empty());
    let mut i: usize = 0;
    while i < edits.len()
        invariant
            i <= edits.len(),
            out.deep_view() == renders_of(edits.deep_view(), new.deep_view().groups, i as int),
        decreases edits.len() - i,
    {
        let ghost before = out.deep_view();
        assert(edits.deep_view()[i as int] == edits@[i as int].deep_view());
        match &edits[i] {
            ConfigEdit::SetSpatial(name, on) => match group_id_for(new, name) {
                Some(id) => {
                    out.push((id, *on));
                    assert(out.deep_view() =~= before + seq![(id, *on)]);
                },
                None => {
                    assert(out.deep_view() =~= before + Seq::empty());
                },
            },
            _ => {
                assert(out.deep_view() =~= before + Seq::empty());
            },
        }
        i = i + 1;
    }
    out
}

impl Dispatcher {
    /// The state at startup.
    pub fn new(
        current: ConfigSnapshot,
        default_output: Option<String>,
        devices: Vec<String>,
    ) -> (r: Dispatcher)
        ensures
            r.deep_view() == (DispatcherView {
                current: current.deep_view(),
                generation: 0,
                default_output: default_output.deep_view(),
                devices: devices.deep_view(),
                sink: sink_status(
                    current.deep_view().app.sink_device,
                    devices.deep_view(),
                    default_output.deep_view(),
                ),
                hold: HoldState { held: false, restore_to: false },
                first_run: current.deep_view().groups.len() == 0,
            }),
    {
        let sink = resolve_sink(&current.app.sink_device, &devices, &default_output);
        let first_run = current.groups.len() == 0;
        Dispatcher {
            current,
            generation: 0,
            default_output,
            devices,
            sink,
            hold: HoldState::default(),
            first_run,
        }
    }

    /// The configuration in force.
    pub fn current(&self) -> (r: &ConfigSnapshot)
        ensures
            r.deep_view() == self.deep_view().current,
    {
        &self.current
    }

    /// How often the mixer was rebuilt. The settings window drops its solo set
    /// whenever this moves.
    pub fn rebuild_generation(&self) -> (r: u64)
        ensures
            r == self.deep_view().generation,
    {
        self.generation
    }

    pub fn sink_status(&self) -> (r: &SinkStatus)
        ensures
            r.deep_view() == self.deep_view().sink,
    {
        &self.sink
    }

    /// Whether the settings window shows onboarding.
    pub fn first_run(&self) -> (r: bool)
        ensures
            r == self.deep_view().first_run,
    {
        self.first_run
    }

    fn refresh_sink_status(&mut self)
        ensures
            final(self).deep_view() == (DispatcherView {
                sink: sink_status(
                    old(self).deep_view().current.app.sink_device,
                    old(self).deep_view().devices,
                    old(self).deep_view().default_output,
                ),
                ..old(self).deep_view()
            }),
    {
        self.sink = resolve_sink(
            &self.current.app.sink_device,
            &self.devices,
            &self.default_output,
        );
    }

    /// Puts a configuration in force and adds what follows from that.
    fn set_current(&mut self, effects: &mut Vec<Effect>, new: ConfigSnapshot)
        ensures
            final(self).deep_view() == old(self).deep_view().with_current(new.deep_view()),
            final(effects).deep_view() == old(effects).deep_view() + old(
                self,
            ).deep_view().current_effects(new.deep_view()),
    {
        let ghost before = effects.deep_view();
        let ghost d = self.deep_view();
        let ghost n = new.deep_view();
        push_effect_when(
            effects,
            self.current.app.autostart != new.app.autostart,
            Effect::SetAutostart(new.app.autostart),
        );
        let suspended = compute_suspended(&new, &self.default_output);
        push_effect(effects, Effect::SetSuspended(suspended));
        let shown = build_tray_model(&self.current);
        let model = build_tray_model(&new);
        let changed = !model.same(&shown);
        push_effect_when(effects, changed, Effect::ShowTray(model));
        assert(effects.deep_view() =~= before + d.current_effects(n));
        if self.first_run {
            self.first_run = new.groups.len() == 0;
        }
        self.current = new;
        self.refresh_sink_status();
    }

    fn param_path(&self, effects: &mut Vec<Effect>, edits: Vec<ConfigEdit>)
        ensures
            final(effects).deep_view() == old(effects).deep_view()
                + self.deep_view().param_effects(edits.deep_view()),
    {
        let ghost before = effects.deep_view();
        let ghost wanted = self.deep_view().param_effects(edits.deep_view());
        let commands = edits_to_mixer_commands(&edits, &self.current);
        assert(commands.deep_view().len() == commands@.len());
        let any = commands.len() > 0;
        push_effect_when(effects, any, Effect::SendCommands(commands));
        push_effect(effects, Effect::WriteStore { edits, route: Route::Params });
        assert(effects.deep_view() =~= before + wanted);
    }

    fn push_bound_target_changes(&self, effects: &mut Vec<Effect>, edits: &Vec<ConfigEdit>)
        ensures
            final(effects).deep_view() == old(effects).deep_view()
                + self.deep_view().push_effects(edits.deep_view()),
    {
        let ghost before = effects.deep_view();
        let ghost wanted = self.deep_view().push_effects(edits.deep_view());
        match bound_target(&self.current.app) {
            None => {},
            Some(target) => match target_state(&self.current, &target) {
                None => {},
                Some(state) => {
                    let open = !compute_suspended(&self.current, &self.default_output);
                    push_effect_when(
                        effects,
                        touches_gain(edits, &target) && open,
                        Effect::PushLevel(state.0),
                    );
                    push_effect_when(
                        effects,
                        touches_mute(edits, &target) && open,
                        Effect::PushMuted(state.1),
                    );
                },
            },
        }
        assert(effects.deep_view() =~= before + wanted);
    }

    fn push_new_bind_outward(&self, effects: &mut Vec<Effect>)
        ensures
            final(effects).deep_view() == old(effects).deep_view()
                + self.deep_view().rebound_effects(),
    {
        let ghost before = effects.deep_view();
        let ghost wanted = self.deep_view().rebound_effects();
        match bound_target(&self.current.app) {
            None => {},
            Some(target) => match target_state(&self.current, &target) {
                None => {},
                Some(state) => {
                    let open = !compute_suspended(&self.current, &self.default_output);
                    push_effect_when(effects, open, Effect::PushLevel(state.0));
                    push_effect_when(effects, open, Effect::PushMuted(state.1));
                },
            },
        }
        assert(effects.deep_view() =~= before + wanted);
    }

    fn stored_params(&mut self, edits: &Vec<ConfigEdit>, new: ConfigSnapshot) -> (r: Vec<Effect>)
        ensures
            (final(self).deep_view(), r.deep_view()) == stored_step(
                old(self).deep_view(),
                Route::Params,
                edits.deep_view(),
                new.deep_view(),
            ),
    {
        let ghost wanted = stored_step(
            self.deep_view(),
            Route::Params,
            edits.deep_view(),
            new.deep_view(),
        ).1;
        let mut effects = no_effects();
        push_effect_when(&mut effects, any_routing_change(edits), Effect::UpdateRules);
        self.set_current(&mut effects, new);
        self.push_bound_target_changes(&mut effects, edits);
        if any_bind_change(edits) {
            self.push_new_bind_outward(&mut effects);
        }
        assert(effects.deep_view() =~= wanted);
        effects
    }

    fn rebuilt_with(&mut self, effects: &mut Vec<Effect>, new: ConfigSnapshot)
        requires
            old(self).deep_view().generation < u64::MAX,
        ensures
            final(self).deep_view() == old(self).deep_view().rebuilt().with_current(
                new.deep_view(),
            ),
            final(effects).deep_view() == old(effects).deep_view() + (seq![
                EffectView::Rebuild,
                EffectView::UpdateRules,
            ] + old(self).deep_view().rebuilt().current_effects(new.deep_view())),
    {
        let ghost before = effects.deep_view();
        let ghost wanted = seq![EffectView::Rebuild, EffectView::UpdateRules]
            + self.deep_view().rebuilt().current_effects(new.deep_view());
        self.generation = self.generation + 1;
        push_effect(effects, Effect::Rebuild);
        push_effect(effects, Effect::UpdateRules);
        self.set_current(effects, new);
        assert(effects.deep_view() =~= before + wanted);
    }

    fn stored_profile(&mut self, edits: &Vec<ConfigEdit>, new: ConfigSnapshot) -> (r: Vec<Effect>)
        requires
            old(self).deep_view().generation < u64::MAX,
        ensures
            (final(self).deep_view(), r.deep_view()) == stored_step(
                old(self).deep_view(),
                Route::Profile,
                edits.deep_view(),
                new.deep_view(),
            ),
    {
        let ghost wanted = stored_step(
            self.deep_view(),
            Route::Profile,
            edits.deep_view(),
            new.deep_view(),
        ).1;
        let mut effects = no_effects();
        if any_rebuild(edits) {
            self.rebuilt_with(&mut effects, new);
            self.push_bound_target_changes(&mut effects, edits);
            assert(effects.deep_view() =~= wanted);
            return effects;
        }
        let commands = edits_to_mixer_commands(edits, &self.current);
        assert(commands.deep_view().len() == commands@.len());
        let any = commands.len() > 0;
        push_effect_when(&mut effects, any, Effect::SendCommands(commands));
        let chains = collect_chains(edits, &new, true);
        assert(chains.deep_view().len() == chains@.len());
        let any = chains.len() > 0;
        push_effect_when(&mut effects, any, Effect::SwapChains(chains));
        let renders = collect_renders(edits, &new);
        assert(renders.deep_view().len() == renders@.len());
        let any = renders.len() > 0;
        push_effect_when(&mut effects, any, Effect::SwapRenders(renders));
        self.set_current(&mut effects, new);
        self.push_bound_target_changes(&mut effects, edits);
        assert(effects.deep_view() =~= wanted);
        effects
    }

    /// The store wrote the batch, and the file now reads as `new`.
    pub fn stored(&mut self, route: Route, edits: &Vec<ConfigEdit>, new: ConfigSnapshot) -> (r: Vec<
        Effect,
    >)
        requires
            old(self).deep_view().generation < u64::MAX,
        ensures
            (final(self).deep_view(), r.deep_view()) == stored_step(
                old(self).deep_view(),
                route,
                edits.deep_view(),
                new.deep_view(),
            ),
    {
        let ghost wanted = stored_step(
            self.deep_view(),
            route,
            edits.deep_view(),
            new.deep_view(),
        ).1;
        match route {
            Route::Params => self.stored_params(edits, new),
            Route::Profile => self.stored_profile(edits, new),
            Route::Structure => {
                let mut effects = no_effects();
                self.rebuilt_with(&mut effects, new);
                assert(effects.deep_view() =~= wanted);
                effects
            },
            Route::DspChains => {
                let mut effects = no_effects();
                let chains = collect_chains(edits, &new, false);
                assert(chains.deep_view().len() == chains@.len());
                let any = chains.len() > 0;
                push_effect_when(&mut effects, any, Effect::SwapChains(chains));
                self.set_current(&mut effects, new);
                assert(effects.deep_view() =~= wanted);
                effects
            },
            Route::Spatial => {
                let mut effects = no_effects();
                let renders = collect_renders(edits, &new);
                assert(renders.deep_view().len() == renders@.len());
                let any = renders.len() > 0;
                push_effect_when(&mut effects, any, Effect::SwapRenders(renders));
                self.set_current(&mut effects, new);
                assert(effects.deep_view() =~= wanted);
                effects
            },
        }
    }

    /// The file changed and reads as `new`; `is_echo` where that is the
    /// store's own write.
    pub fn handle_watcher_snapshot(&mut self, new: ConfigSnapshot, is_echo: bool) -> (r: Vec<Effect>)
        requires
            old(self).deep_view().generation < u64::MAX,
        ensures
            (final(self).deep_view(), r.deep_view()) == watched_step(
                old(self).deep_view(),
                new.deep_view(),
                is_echo,
            ),
    {
        let ghost wanted = watched_step(self.deep_view(), new.deep_view(), is_echo).1;
        let mut effects = no_effects();
        if is_echo {
            self.set_current(&mut effects, new);
            assert(effects.deep_view() =~= wanted);
            return effects;
        }
        let delta = diff(&self.current, &new);
        if delta.structural {
            self.rebuilt_with(&mut effects, new);
            assert(effects.deep_view() =~= wanted);
            return effects;
        }
        let any = delta.params.len() > 0;
        push_effect_when(&mut effects, any, Effect::SendCommands(delta.params));
        match delta.dsp_chains {
            Some(chains) => {
                push_effect_when(&mut effects, true, Effect::SwapChains(chains));
            },
            None => {},
        }
        match delta.spatial {
            Some(renders) => {
                push_effect_when(&mut effects, true, Effect::SwapRenders(renders));
            },
            None => {},
        }
        push_effect_when(
            &mut effects,
            delta.rules.is_some() || delta.excluded.is_some(),
            Effect::UpdateRules,
        );
        self.set_current(&mut effects, new);
        assert(effects.deep_view() =~= wanted);
        effects
    }

    /// What there is to do at startup: register for the next one, settle
    /// whether the endpoint is mirrored, and take the sink where the user opted
    /// in.
    pub fn started(&self) -> (r: Vec<Effect>)
        ensures
            r.deep_view() == seq![
                EffectView::SetAutostart(self.deep_view().current.app.autostart),
                EffectView::SetSuspended(
                    suspended(self.deep_view().current, self.deep_view().default_output),
                ),
            ] + self.deep_view().takeover_effects(AssertTrigger::Startup),
    {
        let mut effects = one_effect(Effect::SetAutostart(self.current.app.autostart));
        let suspended = compute_suspended(&self.current, &self.default_output);
        push_effect(&mut effects, Effect::SetSuspended(suspended));
        let mut taken = self.take_sink_as_default(AssertTrigger::Startup);
        let ghost so_far = effects.deep_view();
        let ghost more = taken.deep_view();
        effects.append(&mut taken);
        assert(effects.deep_view() =~= so_far + more);
        effects
    }

    /// Takes the sink as the default output, where that is due.
    pub fn take_sink_as_default(&self, trigger: AssertTrigger) -> (r: Vec<Effect>)
        ensures
            r.deep_view() == self.deep_view().takeover_effects(trigger),
    {
        let ghost wanted = self.deep_view().takeover_effects(trigger);
        let mut effects = no_effects();
        let current_default = match &self.default_output {
            Some(name) => Some(name.as_str()),
            None => None,
        };
        match plan_sink_takeover(&self.current.app, &self.sink, trigger, current_default) {
            None => {},
            Some(takeover) => {
                self.param_path(&mut effects, takeover.edits);
                push_effect(&mut effects, Effect::InstallDefault(takeover.sink));
            },
        }
        assert(effects.deep_view() =~= wanted);
        effects
    }

    /// The device to hand the default output back to when quitting.
    pub fn device_to_restore(&self) -> (r: Option<String>)
        ensures
            r.deep_view() == self.deep_view().current.app.previous_default,
    {
        copy_option(&self.current.app.previous_default)
    }

    /// The restore was tried. Only one that worked clears the record.
    pub fn restored(&self, succeeded: bool) -> (r: Vec<Effect>)
        ensures
            r.deep_view() == self.deep_view().param_effects(
                if succeeded {
                    seq![EditView::SetPreviousDefault(None)]
                } else {
                    Seq::empty()
                },
            ),
    {
        let edits = post_restore_edits(succeeded);
        let ghost wanted = self.deep_view().param_effects(edits.deep_view());
        let mut effects = no_effects();
        self.param_path(&mut effects, edits);
        assert(effects.deep_view() =~= wanted);
        effects
    }

    /// The system's default output is the device of that name.
    pub fn default_output_is(&mut self, name: Option<String>) -> (r: Vec<Effect>)
        ensures
            final(self).deep_view() == (DispatcherView {
                default_output: name.deep_view(),
                sink: sink_status(
                    old(self).deep_view().current.app.sink_device,
                    old(self).deep_view().devices,
                    name.deep_view(),
                ),
                ..old(self).deep_view()
            }),
            r.deep_view() == seq![
                EffectView::Rebind,
                EffectView::SetSuspended(
                    suspended(old(self).deep_view().current, name.deep_view()),
                ),
            ],
    {
        self.default_output = name;
        let mut effects = one_effect(Effect::Rebind);
        let suspended = compute_suspended(&self.current, &self.default_output);
        push_effect(&mut effects, Effect::SetSuspended(suspended));
        self.refresh_sink_status();
        let mut taken = self.take_sink_as_default(AssertTrigger::ExternalDefaultChange);
        let ghost so_far = effects.deep_view();
        let ghost nothing = taken.deep_view();
        effects.append(&mut taken);
        assert(effects.deep_view() =~= so_far + nothing);
        assert(effects.deep_view() =~= so_far);
        effects
    }

    /// The devices are these.
    pub fn devices_are(&mut self, names: Vec<String>)
        ensures
            final(self).deep_view() == (DispatcherView {
                devices: names.deep_view(),
                sink: sink_status(
                    old(self).deep_view().current.app.sink_device,
                    names.deep_view(),
                    old(self).deep_view().default_output,
                ),
                ..old(self).deep_view()
            }),
    {
        self.devices = names;
        self.refresh_sink_status();
    }

    /// The target's level was stepped to that gain.
    pub fn stepped(&self, target: &VolumeTarget, gain: Gain) -> (r: Vec<Effect>)
        ensures
            r.deep_view() == self.deep_view().param_effects(
                seq![gain_edit_of(target.deep_view(), gain.deep_view())],
            ),
    {
        let edits = one_edit(gain_edit(target, gain));
        let ghost wanted = self.deep_view().param_effects(edits.deep_view());
        let mut effects = no_effects();
        self.param_path(&mut effects, edits);
        assert(effects.deep_view() =~= wanted);
        effects
    }

    /// The endpoint was held against the target: its level moved to that gain
    /// if at all, and it reports that mute. Where neither differs, nothing is
    /// written.
    pub fn adopted(
        &self,
        target: &VolumeTarget,
        moved_to: Option<Gain>,
        endpoint_muted: bool,
        target_muted: bool,
    ) -> (r: Vec<Effect>)
        ensures
            r.deep_view() == self.deep_view().adopted_effects(
                target.deep_view(),
                moved_to.deep_view(),
                endpoint_muted,
                target_muted,
            ),
    {
        let edits = adopt_edits(target, moved_to, endpoint_muted, target_muted);
        assert(edits.deep_view().len() == edits@.len());
        if edits.len() == 0 {
            return no_effects();
        }
        let ghost wanted = self.deep_view().param_effects(edits.deep_view());
        let mut effects = no_effects();
        self.param_path(&mut effects, edits);
        assert(effects.deep_view() =~= wanted);
        effects
    }

    /// Holds what the endpoint reports against the target. While the binding
    /// is suspended nothing is taken over.
    pub fn reconcile<A: Arithmetic>(
        &self,
        a: &A,
        event: VolumeEvent,
        target: &VolumeTarget,
        gain: Gain,
        muted: bool,
        suspended: bool,
    ) -> (r: Vec<Effect>)
        ensures
            suspended ==> r.deep_view() == Seq::<EffectView>::empty(),
            !suspended ==> exists|asked: Option<Float32>| #[trigger]
                asks(*a, event.level, gain.deep_view(), asked) && r.deep_view()
                    == self.deep_view().adopted_effects(
                    target.deep_view(),
                    asked,
                    event.muted,
                    muted,
                ),
    {
        if suspended {
            no_effects()
        } else {
            let moved = moved_to(a, event.level, gain);
            self.adopted(target, moved, event.muted, muted)
        }
    }

    /// Steps the target's level.
    pub fn step<A: Arithmetic>(
        &self,
        a: &A,
        target: &VolumeTarget,
        gain: Gain,
        delta_db: Float32,
    ) -> (r: Vec<Effect>)
        ensures
            exists|to: Float32| #[trigger]
                steps_to(*a, gain.deep_view(), delta_db, to) && r.deep_view()
                    == self.deep_view().param_effects(seq![gain_edit_of(target.deep_view(), to)]),
    {
        let to = step_gain(a, gain, delta_db);
        self.stepped(target, to)
    }

    fn hold_event(&mut self, event: HoldEvent) -> (r: Vec<Effect>)
        ensures
            final(self).deep_view() == (DispatcherView {
                hold: hold_step(old(self).deep_view().hold, event).0,
                ..old(self).deep_view()
            }),
            r.deep_view() == old(self).deep_view().hold_effects(event),
    {
        let ghost wanted = self.deep_view().hold_effects(event);
        let (state, muted) = push_to_mute(self.hold, event);
        let mut effects = one_effect(
            if state.held {
                Effect::ArmHold
            } else {
                Effect::DisarmHold
            },
        );
        match muted {
            Some(muted) => {
                let edits = one_edit(ConfigEdit::SetMuted(muted));
                self.param_path(&mut effects, edits);
            },
            None => {},
        }
        self.hold = state;
        assert(effects.deep_view() =~= wanted);
        effects
    }

    /// Whether a hold that was armed so long ago is given up, in case its
    /// release was missed.
    pub fn hold_is_over(&self, armed_for_ms: Option<u64>) -> (r: bool)
        ensures
            r == (armed_for_ms matches Some(ms) && ms >= MAX_HOLD_MS),
    {
        match armed_for_ms {
            Some(ms) => ms >= MAX_HOLD_MS,
            None => false,
        }
    }

    /// The hold lasted longer than it may.
    pub fn hold_expired(&mut self) -> (r: Vec<Effect>)
        ensures
            final(self).deep_view() == (DispatcherView {
                hold: hold_step(old(self).deep_view().hold, HoldEvent::Expired).0,
                ..old(self).deep_view()
            }),
            r.deep_view() == old(self).deep_view().hold_effects(HoldEvent::Expired),
    {
        self.hold_event(HoldEvent::Expired)
    }

    fn param_effects_of(&self, edits: Vec<ConfigEdit>) -> (r: Vec<Effect>)
        ensures
            r.deep_view() == self.deep_view().param_effects(edits.deep_view()),
    {
        let ghost wanted = self.deep_view().param_effects(edits.deep_view());
        let mut effects = no_effects();
        self.param_path(&mut effects, edits);
        assert(effects.deep_view() =~= wanted);
        effects
    }

    /// Acts on an intent. The second result says to quit.
    pub fn handle_action(&mut self, action: ShellAction) -> (r: (Vec<Effect>, bool))
        ensures
            (final(self).deep_view(), r.0.deep_view()) == action_step(
                old(self).deep_view(),
                action.deep_view(),
            ),
            r.1 == action.deep_view() is Quit,
    {
        let effects = match action {
            ShellAction::EditParams(edits) => self.param_effects_of(edits),
            ShellAction::EditStructure(edits) => one_effect(
                Effect::WriteStore { edits, route: Route::Structure },
            ),
            ShellAction::EditDspChains(edits) => one_effect(
                Effect::WriteStore { edits, route: Route::DspChains },
            ),
            ShellAction::EditSpatial(edits) => one_effect(
                Effect::WriteStore { edits, route: Route::Spatial },
            ),
            ShellAction::ToggleMute => {
                let edits = one_edit(ConfigEdit::SetMuted(!self.current.muted));
                self.param_effects_of(edits)
            },
            ShellAction::SetSolo(name, on) => match group_id_for(&self.current, &name) {
                Some(id) => {
                    let mut commands: Vec<MixerCommand> = Vec::new();
                    commands.push(MixerCommand::SetGroupSolo(id, on));
                    assert(commands.deep_view() =~= seq![CommandView::SetGroupSolo(id, on)]);
                    one_effect(Effect::SendCommands(commands))
                },
                None => no_effects(),
            },
            ShellAction::ApplyProfile(name) => {
                let mut edits = apply_profile(&self.current, &name);
                let ghost switch = edits.deep_view();
                edits.push(ConfigEdit::SetActiveProfile(Some(name)));
                assert(edits.deep_view() =~= switch.push(
                    EditView::SetActiveProfile(Some(name@)),
                ));
                one_effect(Effect::WriteStore { edits, route: Route::Profile })
            },
            ShellAction::EndpointVolumeChanged(event) => match bound_target(&self.current.app) {
                None => no_effects(),
                Some(target) => match target_state(&self.current, &target) {
                    None => no_effects(),
                    Some(state) => {
                        let suspended = compute_suspended(&self.current, &self.default_output);
                        one_effect(
                            Effect::Reconcile {
                                event,
                                target,
                                gain: state.0,
                                muted: state.1,
                                suspended,
                            },
                        )
                    },
                },
            },
            ShellAction::VolumeStep { target, delta_db } => match target_state(
                &self.current,
                &target,
            ) {
                None => no_effects(),
                Some(state) => one_effect(Effect::StepGain { target, gain: state.0, delta_db }),
            },
            ShellAction::ToggleGroupMute(name) => match group_index(&self.current.groups, &name) {
                None => no_effects(),
                Some(i) => {
                    let muted = !self.current.groups[i].muted;
                    let edits = one_edit(ConfigEdit::SetGroupMute(name, muted));
                    self.param_effects_of(edits)
                },
            },
            ShellAction::PushToMute(pressed) => {
                let event = if pressed {
                    HoldEvent::Pressed { actual_muted: self.current.muted }
                } else {
                    HoldEvent::Released
                };
                self.hold_event(event)
            },
            ShellAction::DefaultDeviceChanged => one_effect(Effect::ReadDefaultOutput),
            ShellAction::DevicesChanged => one_effect(Effect::ReadDevices),
            ShellAction::TakeDefaultOutput => self.take_sink_as_default(
                AssertTrigger::UserRequest,
            ),
            ShellAction::ShowSettings => one_effect(Effect::FocusWindow),
            ShellAction::Quit => {
                return (no_effects(), true);
            },
        };
        (effects, false)
    }
}

fn resolve_sink(
    sink: &Option<String>,
    devices: &Vec<String>,
    default_output: &Option<String>,
) -> (r: SinkStatus)
    ensures
        r.deep_view() == sink_status(
            sink.deep_view(),
            devices.deep_view(),
            default_output.deep_view(),
        ),
{
    let configured = match sink {
        Some(name) => Some(name.as_str()),
        None => None,
    };
    let current = match default_output {
        Some(name) => Some(name.as_str()),
        None => None,
    };
    let known = devices.as_slice();
    assert(known.deep_view() =~= devices.deep_view());
    resolve_sink_status(configured, known, current)
}

/// The sink's status is always that of the configuration in force and the
/// devices that are known, and onboarding shows only while there is no group.
pub open spec fn consistent(d: DispatcherView) -> bool {
    &&& d.sink == sink_status(d.current.app.sink_device, d.devices, d.default_output)
    &&& d.first_run ==> d.current.groups.len() == 0
}

/// Every step keeps the state consistent.
pub proof fn steps_keep_the_state_consistent(
    d: DispatcherView,
    action: ActionView,
    route: Route,
    edits: Seq<EditView>,
    new: SnapshotView,
    is_echo: bool,
)
    requires
        consistent(d),
    ensures
        consistent(action_step(d, action).0),
        consistent(stored_step(d, route, edits, new).0),
        consistent(watched_step(d, new, is_echo).0),
{
}

/// Solo never reaches the file: its only effect is a command to the mixer.
pub proof fn solo_is_never_written(d: DispatcherView, name: Seq<char>, on: bool, i: int)
    requires
        0 <= i < action_step(d, ActionView::SetSolo(name, on)).1.len(),
    ensures
        action_step(d, ActionView::SetSolo(name, on)).0 == d,
        action_step(d, ActionView::SetSolo(name, on)).1[i] is SendCommands,
{
}

/// The configuration in force is the one in the file: the one that was just
/// written, or the one that somebody else wrote.
pub proof fn the_file_is_in_force(
    d: DispatcherView,
    route: Route,
    edits: Seq<EditView>,
    new: SnapshotView,
    is_echo: bool,
)
    ensures
        watched_step(d, new, is_echo).0.current == new,
        stored_step(d, route, edits, new).0.current == new,
{
}

/// What the endpoint is told is the state of the bound target, and nothing is told
/// while the binding is suspended or where no edit touched what it is told.
pub proof fn the_endpoint_hears_of_the_bound_target(
    d: DispatcherView,
    edits: Seq<EditView>,
    effect: EffectView,
)
    requires
        d.push_effects(edits).contains(effect) || d.rebound_effects().contains(effect),
    ensures
        !suspended(d.current, d.default_output),
        bound_to(d.current.app) matches Some(target) && state_of(d.current, target) matches Some(
            state,
        ) && match effect {
            EffectView::PushLevel(gain) => gain == state.0,
            EffectView::PushMuted(muted) => muted == state.1,
            _ => false,
        },
{
    if let Some(target) = bound_to(d.current.app) {
        if let Some(state) = state_of(d.current, target) {
            let open = !suspended(d.current, d.default_output);
            let level = EffectView::PushLevel(state.0);
            let mute = EffectView::PushMuted(state.1);
            lemma_contains_when(gain_touched(edits, target) && open, level, effect);
            lemma_contains_when(mute_touched(edits, target) && open, mute, effect);
            lemma_contains_when(open, level, effect);
            lemma_contains_when(open, mute, effect);
            lemma_seq_concat_contains_all_elements(
                effect_when(gain_touched(edits, target) && open, level),
                effect_when(mute_touched(edits, target) && open, mute),
                effect,
            );
            lemma_seq_concat_contains_all_elements(
                effect_when(open, level),
                effect_when(open, mute),
                effect,
            );
        }
    }
}

proof fn lemma_contains_when(called_for: bool, effect: EffectView, e: EffectView)
    ensures
        effect_when(called_for, effect).contains(e) <==> called_for && e == effect,
{
    if called_for {
        assert(seq![effect][0] == effect);
    }
}

/// An edit that changed the bound target is told to the endpoint, unless the binding
/// is suspended, and so are both numbers of a target that was just bound.
pub proof fn the_endpoint_is_told_what_changed(
    d: DispatcherView,
    edits: Seq<EditView>,
    target: TargetView,
)
    requires
        bound_to(d.current.app) == Some(target),
        state_of(d.current, target) is Some,
        !suspended(d.current, d.default_output),
    ensures
        gain_touched(edits, target) ==> d.push_effects(edits).contains(
            EffectView::PushLevel((state_of(d.current, target)->0).0),
        ),
        mute_touched(edits, target) ==> d.push_effects(edits).contains(
            EffectView::PushMuted((state_of(d.current, target)->0).1),
        ),
        d.rebound_effects().contains(EffectView::PushLevel((state_of(d.current, target)->0).0)),
        d.rebound_effects().contains(EffectView::PushMuted((state_of(d.current, target)->0).1)),
{
    let state = state_of(d.current, target)->0;
    let level = EffectView::PushLevel(state.0);
    let mute = EffectView::PushMuted(state.1);
    let first = effect_when(gain_touched(edits, target), level);
    let second = effect_when(mute_touched(edits, target), mute);
    lemma_contains_when(gain_touched(edits, target), level, level);
    lemma_contains_when(mute_touched(edits, target), mute, mute);
    lemma_contains_when(true, level, level);
    lemma_contains_when(true, mute, mute);
    lemma_seq_concat_contains_all_elements(first, second, level);
    lemma_seq_concat_contains_all_elements(first, second, mute);
    lemma_seq_concat_contains_all_elements(
        effect_when(true, level),
        effect_when(true, mute),
        level,
    );
    lemma_seq_concat_contains_all_elements(effect_when(true, level), effect_when(true, mute), mute);
}

/// Parameters go both ways: to the mixer as the commands of their edits, and to the
/// store as they are. Whatever else an intent changes is written before it is acted
/// on, under the route that its edits take.
pub proof fn every_edit_is_written(d: DispatcherView, edits: Seq<EditView>)
    ensures
        action_step(d, ActionView::EditParams(edits)).1.last() == (EffectView::WriteStore {
            edits,
            route: Route::Params,
        }),
        commands_of(edits, d.current.groups).len() > 0 ==> action_step(
            d,
            ActionView::EditParams(edits),
        ).1[0] == EffectView::SendCommands(commands_of(edits, d.current.groups)),
        action_step(d, ActionView::EditStructure(edits)).1 == seq![
            EffectView::WriteStore { edits, route: Route::Structure },
        ],
        action_step(d, ActionView::EditDspChains(edits)).1 == seq![
            EffectView::WriteStore { edits, route: Route::DspChains },
        ],
        action_step(d, ActionView::EditSpatial(edits)).1 == seq![
            EffectView::WriteStore { edits, route: Route::Spatial },
        ],
{
}

/// The effects end with one edit that is written.
pub open spec fn writes_one(effects: Seq<EffectView>, edit: EditView) -> bool {
    effects.len() > 0 && effects.last() == (EffectView::WriteStore {
        edits: seq![edit],
        route: Route::Params,
    })
}

/// A mute that is toggled is the other one than is in force, of the group or the
/// master that was asked for.
pub proof fn toggling_turns_the_mute_over(d: DispatcherView, name: Seq<char>, i: int, on: bool)
    requires
        group_named(d.current.groups, name) == Some(i),
    ensures
        writes_one(action_step(d, ActionView::ToggleMute).1, EditView::SetMuted(on)) <==> on
            != d.current.muted,
        writes_one(
            action_step(d, ActionView::ToggleGroupMute(name)).1,
            EditView::SetGroupMute(name, on),
        ) <==> on != d.current.groups[i].muted,
{
    let edits = seq![EditView::SetMuted(!d.current.muted)];
    assert(seq![EditView::SetMuted(on)][0] == EditView::SetMuted(on));
    assert(edits[0] == EditView::SetMuted(!d.current.muted));
    let other = EditView::SetGroupMute(name, !d.current.groups[i].muted);
    assert(seq![EditView::SetGroupMute(name, on)][0] == EditView::SetGroupMute(name, on));
    assert(seq![other][0] == other);
}

/// A configuration that comes into force is followed up everywhere: the start with the
/// system where that changed, the tray where it shows something else, and the binding
/// in any case.
pub proof fn a_new_configuration_is_shown(d: DispatcherView, new: SnapshotView, e: EffectView)
    ensures
        d.current_effects(new).contains(e) <==> {
            ||| d.current.app.autostart != new.app.autostart && e == EffectView::SetAutostart(
                new.app.autostart,
            )
            ||| e == EffectView::SetSuspended(suspended(new, d.default_output))
            ||| tray_of(d.current) != tray_of(new) && e == EffectView::ShowTray(tray_of(new))
        },
{
    let a = d.current.app.autostart != new.app.autostart;
    let start = EffectView::SetAutostart(new.app.autostart);
    let held = EffectView::SetSuspended(suspended(new, d.default_output));
    let t = tray_of(d.current) != tray_of(new);
    let tray = EffectView::ShowTray(tray_of(new));
    lemma_contains_when(a, start, e);
    lemma_contains_when(true, held, e);
    lemma_contains_when(t, tray, e);
    lemma_seq_concat_contains_all_elements(effect_when(a, start), seq![held], e);
    lemma_seq_concat_contains_all_elements(
        effect_when(a, start) + seq![held],
        effect_when(t, tray),
        e,
    );
}

/// A change that somebody else made to the file is carried out: by a rebuild where the
/// structure changed, and elsewhere by the commands, the swaps and the routing that it
/// calls for, and by nothing else. What the store wrote itself is not carried out
/// again.
pub proof fn a_foreign_change_is_carried_out(d: DispatcherView, new: SnapshotView, e: EffectView)
    ensures
        ({
            let delta = delta_of(d.current, new);
            let effects = watched_step(d, new, false).1;
            if delta.structural {
                effects.contains(EffectView::Rebuild) && effects.contains(EffectView::UpdateRules)
            } else {
                effects.contains(e) <==> {
                    ||| delta.params.len() > 0 && e == EffectView::SendCommands(delta.params)
                    ||| delta.dsp_chains is Some && e == EffectView::SwapChains(
                        delta.dsp_chains->0,
                    )
                    ||| delta.spatial is Some && e == EffectView::SwapRenders(delta.spatial->0)
                    ||| (delta.rules is Some || delta.excluded is Some) && e is UpdateRules
                    ||| d.current_effects(new).contains(e)
                }
            }
        }),
        watched_step(d, new, true).1 == d.current_effects(new),
{
    let delta = delta_of(d.current, new);
    if delta.structural {
        let effects = watched_step(d, new, false).1;
        assert(effects[0] == EffectView::Rebuild);
        assert(effects[1] == EffectView::UpdateRules);
    } else {
        let c1 = delta.params.len() > 0;
        let e1 = EffectView::SendCommands(delta.params);
        let c2 = delta.dsp_chains is Some;
        let e2 = EffectView::SwapChains(delta.dsp_chains->0);
        let c3 = delta.spatial is Some;
        let e3 = EffectView::SwapRenders(delta.spatial->0);
        let c4 = delta.rules is Some || delta.excluded is Some;
        let e4 = EffectView::UpdateRules;
        lemma_contains_when(c1, e1, e);
        lemma_contains_when(c2, e2, e);
        lemma_contains_when(c3, e3, e);
        lemma_contains_when(c4, e4, e);
        let a = effect_when(c1, e1);
        let b = a + effect_when(c2, e2);
        let c = b + effect_when(c3, e3);
        let f = c + effect_when(c4, e4);
        lemma_seq_concat_contains_all_elements(a, effect_when(c2, e2), e);
        lemma_seq_concat_contains_all_elements(b, effect_when(c3, e3), e);
        lemma_seq_concat_contains_all_elements(c, effect_when(c4, e4), e);
        lemma_seq_concat_contains_all_elements(f, d.current_effects(new), e);
    }
}

/// A profile that was written is carried out as a whole: by a rebuild where it moved a
/// group to another device, and elsewhere by the commands of its edits and the swaps
/// of the chains and renderings that it changed.
pub proof fn a_profile_is_carried_out(
    d: DispatcherView,
    edits: Seq<EditView>,
    new: SnapshotView,
    e: EffectView,
)
    ensures
        ({
            let effects = stored_step(d, Route::Profile, edits, new).1;
            let commands = commands_of(edits, d.current.groups);
            let chains = chains_of(edits, new.groups, true, edits.len() as int);
            let renders = renders_of(edits, new.groups, edits.len() as int);
            if needs_rebuild(edits) {
                effects.contains(EffectView::Rebuild) && effects.contains(EffectView::UpdateRules)
            } else {
                effects.contains(e) <==> {
                    ||| commands.len() > 0 && e == EffectView::SendCommands(commands)
                    ||| chains.len() > 0 && e == EffectView::SwapChains(chains)
                    ||| renders.len() > 0 && e == EffectView::SwapRenders(renders)
                    ||| d.current_effects(new).contains(e)
                    ||| d.with_current(new).push_effects(edits).contains(e)
                }
            }
        }),
{
    if needs_rebuild(edits) {
        let effects = stored_step(d, Route::Profile, edits, new).1;
        assert(effects[0] == EffectView::Rebuild);
        assert(effects[1] == EffectView::UpdateRules);
    } else {
        let commands = commands_of(edits, d.current.groups);
        let chains = chains_of(edits, new.groups, true, edits.len() as int);
        let renders = renders_of(edits, new.groups, edits.len() as int);
        let e1 = EffectView::SendCommands(commands);
        let e2 = EffectView::SwapChains(chains);
        let e3 = EffectView::SwapRenders(renders);
        lemma_contains_when(commands.len() > 0, e1, e);
        lemma_contains_when(chains.len() > 0, e2, e);
        lemma_contains_when(renders.len() > 0, e3, e);
        let a = effect_when(commands.len() > 0, e1);
        let b = a + effect_when(chains.len() > 0, e2);
        let c = b + effect_when(renders.len() > 0, e3);
        let f = c + d.current_effects(new);
        lemma_seq_concat_contains_all_elements(a, effect_when(chains.len() > 0, e2), e);
        lemma_seq_concat_contains_all_elements(b, effect_when(renders.len() > 0, e3), e);
        lemma_seq_concat_contains_all_elements(c, d.current_effects(new), e);
        lemma_seq_concat_contains_all_elements(
            f,
            d.with_current(new).push_effects(edits),
            e,
        );
    }
}

} // verus!
