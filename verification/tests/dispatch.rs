use splitstream::action::{ShellAction, VolumeEvent};
use splitstream::command::MixerCommand;
use splitstream::dispatcher::{Dispatcher, Effect, Route, MAX_HOLD_MS};
use splitstream::dsp::DspSpec;
use splitstream::edit::ConfigEdit;
use splitstream::float::Float32;
use splitstream::model::{
    AppConfig, ConfigSnapshot, DspStageConfig, GroupConfig, ProfileConfig, ProfileGroupConfig,
};
use splitstream::sample::{Gain, GroupId};
use splitstream::shell::{AssertTrigger, VolumeTarget};
use splitstream::sink::SinkStatus;

fn number(value: f32) -> Float32 {
    Float32::from_bits(value.to_bits())
}

fn gain(value: f32) -> Gain {
    Gain::new(number(value)).unwrap()
}

fn group(name: &str, device: &str) -> GroupConfig {
    GroupConfig {
        name: name.into(),
        output_device: device.into(),
        gain: Gain::unity(),
        follow_master: true,
        match_rules: vec![],
        dsp: Vec::new(),
        duck: None,
        spatial: false,
        muted: false,
        hotkey_mute: None,
        hotkey_volume_up: None,
        hotkey_volume_down: None,
    }
}

fn limiter(ceiling_db: f32) -> DspStageConfig {
    DspStageConfig { spec: DspSpec::Limiter { ceiling_db: number(ceiling_db) }, bypassed: false }
}

fn snapshot() -> ConfigSnapshot {
    ConfigSnapshot {
        schema_version: 2,
        master: Gain::unity(),
        muted: false,
        groups: vec![group("Game", "Headset"), group("Music", "Speakers")],
        app: AppConfig::default(),
        profiles: Vec::new(),
    }
}

fn dispatcher(snapshot: ConfigSnapshot) -> Dispatcher {
    Dispatcher::new(snapshot, Some("Speakers".into()), vec!["Headset".into(), "Speakers".into(), "Cable".into()])
}

fn act(d: &mut Dispatcher, action: ShellAction) -> Vec<Effect> {
    let (effects, quit) = d.handle_action(action);
    assert!(!quit);
    effects
}

fn is_write(effect: &Effect, wanted: Route) -> bool {
    matches!(effect, Effect::WriteStore { route, .. } if *route == wanted)
}

#[test]
fn params_go_to_the_mixer_and_to_the_store() {
    let mut d = dispatcher(snapshot());
    let edits = vec![ConfigEdit::SetGroupGain("Music".into(), gain(0.5))];
    let effects = act(&mut d, ShellAction::EditParams(edits));
    assert_eq!(effects.len(), 2);
    match &effects[0] {
        Effect::SendCommands(commands) => {
            assert_eq!(commands, &vec![MixerCommand::SetGroupGain(GroupId(1), gain(0.5))]);
        }
        other => panic!("{other:?}"),
    }
    assert!(is_write(&effects[1], Route::Params));

    // An edit that the mixer has no use for is only written.
    let edits = vec![ConfigEdit::SetExcluded(vec!["chat.exe".into()])];
    let effects = act(&mut d, ShellAction::EditParams(edits));
    assert_eq!(effects.len(), 1);
    assert!(is_write(&effects[0], Route::Params));
}

#[test]
fn other_edits_are_written_first() {
    let mut d = dispatcher(snapshot());
    let remove = || vec![ConfigEdit::RemoveGroup("Music".into())];
    assert!(is_write(&act(&mut d, ShellAction::EditStructure(remove()))[0], Route::Structure));
    assert!(is_write(&act(&mut d, ShellAction::EditDspChains(remove()))[0], Route::DspChains));
    assert!(is_write(&act(&mut d, ShellAction::EditSpatial(remove()))[0], Route::Spatial));
}

#[test]
fn a_written_structure_rebuilds_and_is_in_force() {
    let mut d = dispatcher(snapshot());
    let mut new = snapshot();
    new.groups.push(group("Chat", "Headset"));
    let edits = vec![ConfigEdit::AddGroup(group("Chat", "Headset"))];
    let effects = d.stored(Route::Structure, &edits, new);
    assert!(matches!(effects[0], Effect::Rebuild));
    assert!(matches!(effects[1], Effect::UpdateRules));
    assert!(matches!(effects[2], Effect::SetSuspended(true)));
    assert!(matches!(&effects[3], Effect::ShowTray(model) if model.groups.len() == 3));
    assert_eq!(effects.len(), 4);
    assert_eq!(d.current().groups.len(), 3);
    assert_eq!(d.rebuild_generation(), 1);
}

#[test]
fn written_rules_reach_the_routing() {
    let mut d = dispatcher(snapshot());
    let mut new = snapshot();
    new.groups[0].match_rules = vec!["game.exe".into()];
    let edits = vec![ConfigEdit::SetRules("Game".into(), vec!["game.exe".into()])];
    let effects = d.stored(Route::Params, &edits, new);
    assert!(matches!(effects[0], Effect::UpdateRules));
    assert_eq!(effects.len(), 2, "the tray shows no rules");
    assert_eq!(d.rebuild_generation(), 0);
}

#[test]
fn changed_chains_and_renders_are_swapped_from_what_was_written() {
    let mut d = dispatcher(snapshot());
    let mut new = snapshot();
    new.groups[1].dsp = vec![limiter(-3.0), limiter(-6.0)];
    let edits = vec![
        ConfigEdit::AddDspStage("Music".into(), limiter(-6.0).spec),
        ConfigEdit::AddDspStage("Gone".into(), limiter(-6.0).spec),
    ];
    let effects = d.stored(Route::DspChains, &edits, new);
    match &effects[0] {
        Effect::SwapChains(chains) => {
            assert_eq!(chains, &vec![(GroupId(1), vec![limiter(-3.0).spec, limiter(-6.0).spec])]);
        }
        other => panic!("{other:?}"),
    }

    let mut new = snapshot();
    new.groups[0].spatial = true;
    let effects = d.stored(Route::Spatial, &vec![ConfigEdit::SetSpatial("Game".into(), true)], new);
    assert!(matches!(&effects[0], Effect::SwapRenders(all) if *all == vec![(GroupId(0), true)]));
}

#[test]
fn mute_toggles_what_is_in_force() {
    let mut muted = snapshot();
    muted.muted = true;
    muted.groups[0].muted = true;
    for (snapshot, on) in [(snapshot(), true), (muted, false)] {
        let mut d = dispatcher(snapshot);
        let effects = act(&mut d, ShellAction::ToggleMute);
        assert!(matches!(&effects[0], Effect::SendCommands(c) if *c == vec![MixerCommand::SetMuted(on)]));
        let effects = act(&mut d, ShellAction::ToggleGroupMute("Game".into()));
        assert!(
            matches!(&effects[0], Effect::SendCommands(c) if *c == vec![MixerCommand::SetGroupMute(GroupId(0), on)])
        );
        assert!(act(&mut d, ShellAction::ToggleGroupMute("Gone".into())).is_empty());
    }
}

#[test]
fn solo_reaches_the_mixer_and_nothing_else() {
    let mut d = dispatcher(snapshot());
    let effects = act(&mut d, ShellAction::SetSolo("Music".into(), true));
    assert_eq!(effects.len(), 1);
    assert!(
        matches!(&effects[0], Effect::SendCommands(c) if *c == vec![MixerCommand::SetGroupSolo(GroupId(1), true)])
    );
    assert!(act(&mut d, ShellAction::SetSolo("Gone".into(), true)).is_empty());
}

fn profile(device: &str, level: f32) -> ProfileConfig {
    ProfileConfig {
        name: "Night".into(),
        hotkey: None,
        master: Gain::unity(),
        muted: false,
        groups: vec![ProfileGroupConfig {
            name: "Music".into(),
            output_device: device.into(),
            gain: gain(level),
            follow_master: true,
            dsp: Vec::new(),
            duck: None,
            spatial: false,
            muted: false,
        }],
    }
}

#[test]
fn a_profile_is_one_batch_that_names_itself_active() {
    let mut with_profile = snapshot();
    with_profile.profiles = vec![profile("Speakers", 0.25)];
    let mut d = dispatcher(with_profile);
    let effects = act(&mut d, ShellAction::ApplyProfile("Night".into()));
    assert_eq!(effects.len(), 1);
    match &effects[0] {
        Effect::WriteStore { edits, route: Route::Profile } => {
            assert!(matches!(edits.last(), Some(ConfigEdit::SetActiveProfile(Some(name))) if name == "Night"));
        }
        other => panic!("{other:?}"),
    }
}

#[test]
fn a_profile_rebuilds_only_for_another_device() {
    let gains = vec![ConfigEdit::SetGroupGain("Music".into(), gain(0.25))];
    let mut d = dispatcher(snapshot());
    let mut new = snapshot();
    new.groups[1].gain = gain(0.25);
    let effects = d.stored(Route::Profile, &gains, new);
    assert!(matches!(&effects[0], Effect::SendCommands(_)));
    assert_eq!(d.rebuild_generation(), 0);

    let moves = vec![ConfigEdit::SetGroupOutput("Music".into(), "Headset".into())];
    let mut new = snapshot();
    new.groups[1].output_device = "Headset".into();
    let effects = d.stored(Route::Profile, &moves, new);
    assert!(matches!(&effects[0], Effect::Rebuild));
    assert_eq!(d.rebuild_generation(), 1);
}

#[test]
fn the_file_is_in_force_whoever_wrote_it() {
    let mut d = dispatcher(snapshot());
    let mut new = snapshot();
    new.master = gain(0.5);
    let effects = d.handle_watcher_snapshot(new.clone(), true);
    assert!(effects.iter().all(|e| !matches!(e, Effect::SendCommands(_))), "an echo was applied already");
    assert_eq!(d.current().master, gain(0.5));

    new.master = gain(0.25);
    let effects = d.handle_watcher_snapshot(new, false);
    assert!(matches!(&effects[0], Effect::SendCommands(c) if c.contains(&MixerCommand::SetMaster(gain(0.25)))));
    assert_eq!(d.current().master, gain(0.25));

    let mut fewer = snapshot();
    fewer.groups.pop();
    let effects = d.handle_watcher_snapshot(fewer, false);
    assert!(matches!(effects[0], Effect::Rebuild));
    assert_eq!(d.rebuild_generation(), 1);
    assert_eq!(d.current().groups.len(), 1);
}

#[test]
fn the_bound_target_is_told_to_the_endpoint() {
    let mut bound = snapshot();
    bound.app.volume_bind = Some("Game".into());
    let mut d = dispatcher(bound.clone());
    bound.groups[0].gain = gain(0.5);
    let edits = vec![ConfigEdit::SetGroupGain("Game".into(), gain(0.5))];
    let effects = d.stored(Route::Params, &edits, bound.clone());
    assert!(matches!(effects.last(), Some(Effect::PushLevel(g)) if *g == gain(0.5)));

    // On the default output the system's own volume would count twice.
    d.default_output_is(Some("Headset".into()));
    let effects = d.stored(Route::Params, &edits, bound);
    assert!(effects.iter().all(|e| !matches!(e, Effect::PushLevel(_))));
}

#[test]
fn another_binding_is_told_to_the_endpoint_at_once() {
    let mut d = dispatcher(snapshot());
    let mut new = snapshot();
    new.app.volume_bind = Some("master".into());
    new.master = gain(0.5);
    new.muted = true;
    let effects = d.stored(Route::Params, &vec![ConfigEdit::SetVolumeBind(Some("master".into()))], new);
    let n = effects.len();
    assert!(matches!(&effects[n - 2], Effect::PushLevel(g) if *g == gain(0.5)));
    assert!(matches!(&effects[n - 1], Effect::PushMuted(true)));
}

#[test]
fn what_the_endpoint_reports_is_held_against_the_target() {
    let event = VolumeEvent { level: number(0.5), muted: true };
    let mut d = dispatcher(snapshot());
    assert!(act(&mut d, ShellAction::EndpointVolumeChanged(event)).is_empty(), "nothing is bound");

    let mut bound = snapshot();
    bound.app.volume_bind = Some("Music".into());
    let mut d = dispatcher(bound);
    let effects = act(&mut d, ShellAction::EndpointVolumeChanged(event));
    assert!(
        matches!(&effects[0], Effect::Reconcile { event: e, muted: false, suspended: true, .. } if *e == event),
        "the group plays on the default output"
    );

    let target = VolumeTarget::Group("Music".into());
    assert!(d.adopted(&target, None, false, false).is_empty());
    let effects = d.adopted(&target, Some(gain(0.5)), true, false);
    match &effects[0] {
        Effect::SendCommands(commands) => assert_eq!(
            commands,
            &vec![
                MixerCommand::SetGroupGain(GroupId(1), gain(0.5)),
                MixerCommand::SetGroupMute(GroupId(1), true)
            ]
        ),
        other => panic!("{other:?}"),
    }
}

#[test]
fn volume_steps_start_from_what_is_in_force() {
    let mut quiet = snapshot();
    quiet.master = gain(0.25);
    let mut d = dispatcher(quiet);
    let step = |target| ShellAction::VolumeStep { target, delta_db: number(3.0) };
    let effects = act(&mut d, step(VolumeTarget::Master));
    assert!(matches!(&effects[0], Effect::StepGain { gain: g, delta_db, .. } if *g == gain(0.25) && *delta_db == number(3.0)));
    assert!(act(&mut d, step(VolumeTarget::Group("Gone".into()))).is_empty());
    let effects = d.stepped(&VolumeTarget::Master, gain(0.35));
    assert!(matches!(&effects[0], Effect::SendCommands(c) if *c == vec![MixerCommand::SetMaster(gain(0.35))]));
}

#[test]
fn push_to_mute_gives_back_what_was_there() {
    let mut d = dispatcher(snapshot());
    let effects = act(&mut d, ShellAction::PushToMute(true));
    assert!(matches!(effects[0], Effect::ArmHold));
    assert!(matches!(&effects[1], Effect::SendCommands(c) if *c == vec![MixerCommand::SetMuted(true)]));
    assert!(!d.hold_is_over(None));
    assert!(!d.hold_is_over(Some(MAX_HOLD_MS - 1)));
    assert!(d.hold_is_over(Some(MAX_HOLD_MS)));
    let effects = d.hold_expired();
    assert!(matches!(effects[0], Effect::DisarmHold));
    assert!(matches!(&effects[1], Effect::SendCommands(c) if *c == vec![MixerCommand::SetMuted(false)]));
    let effects = act(&mut d, ShellAction::PushToMute(false));
    assert_eq!(effects.len(), 1, "the hold is over already");
}

fn with_sink(manage: bool) -> ConfigSnapshot {
    let mut s = snapshot();
    s.app.sink_device = Some("Cable".into());
    s.app.manage_default = manage;
    s
}

#[test]
fn the_sink_is_taken_at_the_start_where_the_user_agreed() {
    let d = dispatcher(with_sink(false));
    assert!(matches!(d.sink_status(), SinkStatus::NotDefault { sink, .. } if sink == "Cable"));
    assert_eq!(d.started().len(), 2);

    let d = dispatcher(with_sink(true));
    let effects = d.started();
    assert!(matches!(effects[0], Effect::SetAutostart(false)));
    assert!(matches!(effects[1], Effect::SetSuspended(true)));
    match &effects[2] {
        Effect::WriteStore { edits, .. } => {
            assert!(matches!(&edits[0], ConfigEdit::SetManageDefault(true)));
            assert!(matches!(&edits[1], ConfigEdit::SetPreviousDefault(Some(name)) if name == "Speakers"));
        }
        other => panic!("{other:?}"),
    }
    assert!(matches!(&effects[3], Effect::InstallDefault(name) if name == "Cable"));
    assert_eq!(effects.len(), 4);
}

#[test]
fn the_sink_is_taken_on_request_and_never_against_others() {
    let mut d = dispatcher(with_sink(false));
    let effects = act(&mut d, ShellAction::TakeDefaultOutput);
    assert!(matches!(effects.last(), Some(Effect::InstallDefault(name)) if name == "Cable"));
    assert!(d.take_sink_as_default(AssertTrigger::ExternalDefaultChange).is_empty());

    assert!(matches!(act(&mut d, ShellAction::DefaultDeviceChanged)[0], Effect::ReadDefaultOutput));
    let effects = d.default_output_is(Some("Cable".into()));
    assert_eq!(effects.len(), 2);
    assert!(matches!(effects[0], Effect::Rebind));
    assert!(matches!(d.sink_status(), SinkStatus::Active { sink } if sink == "Cable"));
    assert!(act(&mut d, ShellAction::TakeDefaultOutput).is_empty());

    assert!(matches!(act(&mut d, ShellAction::DevicesChanged)[0], Effect::ReadDevices));
    d.devices_are(vec!["Headset".into()]);
    assert!(matches!(d.sink_status(), SinkStatus::Missing { configured } if configured == "Cable"));
}

#[test]
fn only_a_restore_that_worked_clears_the_record() {
    let mut s = with_sink(true);
    s.app.previous_default = Some("Speakers".into());
    let d = dispatcher(s);
    assert_eq!(d.device_to_restore(), Some("Speakers".into()));
    match &d.restored(true)[0] {
        Effect::WriteStore { edits, .. } => {
            assert!(matches!(&edits[..], [ConfigEdit::SetPreviousDefault(None)]));
        }
        other => panic!("{other:?}"),
    }
    match &d.restored(false)[0] {
        Effect::WriteStore { edits, .. } => assert!(edits.is_empty()),
        other => panic!("{other:?}"),
    }
}

#[test]
fn onboarding_ends_with_the_first_group() {
    let mut empty = snapshot();
    empty.groups.clear();
    let mut d = dispatcher(empty.clone());
    assert!(d.first_run());
    d.handle_watcher_snapshot(snapshot(), false);
    assert!(!d.first_run());
    d.handle_watcher_snapshot(empty, false);
    assert!(!d.first_run(), "it does not come back");
}

#[test]
fn settings_and_quit() {
    let mut d = dispatcher(snapshot());
    assert!(matches!(act(&mut d, ShellAction::ShowSettings)[0], Effect::FocusWindow));
    let (effects, quit) = d.handle_action(ShellAction::Quit);
    assert!(quit && effects.is_empty());
}
