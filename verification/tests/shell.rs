use splitstream::command::MixerCommand;
use splitstream::dsp::{DspParam, EqBandSpec};
use splitstream::edit::ConfigEdit;
use splitstream::float::Float32;
use splitstream::model::{AppConfig, ConfigSnapshot, GroupConfig, ProfileConfig};
use splitstream::sample::{Gain, GroupId};
use splitstream::shell::{
    adopt_edits, bound_target, bound_target_values, compute_suspended, edits_to_mixer_commands,
    needs_onboarding, plan_sink_takeover, post_restore_edits, push_to_mute, take_default_edits,
    AssertTrigger, HoldEvent, HoldState, VolumeTarget,
};
use splitstream::sink::SinkStatus;

fn number(value: f32) -> Float32 {
    Float32::from_bits(value.to_bits())
}

fn gain(value: f32) -> Gain {
    Gain::new(number(value)).unwrap()
}

fn snapshot_with_group(name: &str) -> ConfigSnapshot {
    ConfigSnapshot {
        schema_version: 2,
        master: Gain::unity(),
        muted: false,
        groups: vec![GroupConfig {
            name: name.into(),
            output_device: "Out".into(),
            gain: Gain::unity(),
            follow_master: true,
            match_rules: vec![],
            dsp: Vec::new(),
            duck: None,
            spatial: false,
            muted: false,
            hotkey_mute: None,
            hotkey_volume_up: None,
            hotkey_volume_down: None,
        }],
        app: AppConfig::default(),
        profiles: Vec::new(),
    }
}

fn app_with_sink(sink: &str) -> AppConfig {
    AppConfig {
        sink_device: Some(sink.into()),
        manage_default: true,
        ..AppConfig::default()
    }
}

#[test]
fn taking_the_default_records_the_previous_one() {
    let app = app_with_sink("CABLE Input");

    let edits = take_default_edits(&app, Some("Headphones"));

    assert!(edits.iter().any(|e| matches!(e, ConfigEdit::SetManageDefault(true))));
    assert!(edits.iter().any(|e| matches!(
        e,
        ConfigEdit::SetPreviousDefault(Some(name)) if name == "Headphones"
    )));
}

/// A previous default on file was left by an unclean exit and still names the
/// user's own device. Overwriting it throws away the only way back.
#[test]
fn taking_the_default_twice_does_not_overwrite_the_recorded_previous() {
    let app = AppConfig {
        previous_default: Some("Headphones".into()),
        ..app_with_sink("CABLE Input")
    };

    let edits = take_default_edits(&app, Some("CABLE Input"));

    assert!(!edits.iter().any(|e| matches!(e, ConfigEdit::SetPreviousDefault(_))));
}

#[test]
fn a_start_finding_previous_default_already_set_leaves_it_intact() {
    let app = AppConfig {
        previous_default: Some("Speakers".into()),
        ..app_with_sink("CABLE Input")
    };

    let edits = take_default_edits(&app, Some("Headphones"));

    assert_eq!(edits.len(), 1);
    assert!(matches!(edits[0], ConfigEdit::SetManageDefault(true)));
}

#[test]
fn a_successful_restore_clears_the_recorded_previous_default() {
    let edits = post_restore_edits(true);

    assert_eq!(edits.len(), 1);
    assert!(matches!(edits[0], ConfigEdit::SetPreviousDefault(None)));
}

/// The record is the user's only remaining route back to their own device.
#[test]
fn a_failed_restore_keeps_the_recorded_previous_default() {
    let edits = post_restore_edits(false);

    assert!(edits.is_empty());
}

/// Recording the sink as the device to restore would make a clean quit a no-op.
#[test]
fn taking_the_default_never_records_the_sink_itself_as_the_previous() {
    let app = app_with_sink("CABLE Input");

    let edits = take_default_edits(&app, Some("CABLE Input"));

    assert!(!edits.iter().any(|e| matches!(e, ConfigEdit::SetPreviousDefault(_))));
}

fn not_default(sink: &str, current: &str) -> SinkStatus {
    SinkStatus::NotDefault {
        sink: sink.into(),
        current_default: Some(current.into()),
    }
}

#[test]
fn a_startup_takeover_records_the_default_it_displaces() {
    let app = app_with_sink("CABLE Input");
    let status = not_default("CABLE Input", "Headphones");

    let takeover = plan_sink_takeover(&app, &status, AssertTrigger::Startup, Some("Headphones"))
        .expect("a start that opted in must take the sink");

    assert_eq!(takeover.sink, "CABLE Input");
    assert!(
        takeover.edits.iter().any(|e| matches!(
            e,
            ConfigEdit::SetPreviousDefault(Some(name)) if name == "Headphones"
        )),
        "taking the default without recording it strands the next quit"
    );
}

#[test]
fn every_planned_takeover_records_the_previous_default_when_none_is_on_file() {
    let app = app_with_sink("CABLE Input");
    let status = not_default("CABLE Input", "Headphones");

    for trigger in [AssertTrigger::Startup, AssertTrigger::UserRequest] {
        let takeover = plan_sink_takeover(&app, &status, trigger, Some("Headphones"))
            .unwrap_or_else(|| panic!("{trigger:?} should plan a takeover"));

        assert!(
            takeover.edits.iter().any(|e| matches!(e, ConfigEdit::SetPreviousDefault(Some(_)))),
            "{trigger:?} planned a takeover with no way back recorded"
        );
    }
}

#[test]
fn a_user_request_takes_the_sink_even_before_opting_in() {
    let app = AppConfig {
        manage_default: false,
        ..app_with_sink("CABLE Input")
    };
    let status = not_default("CABLE Input", "Headphones");

    let takeover = plan_sink_takeover(&app, &status, AssertTrigger::UserRequest, Some("Headphones"));

    assert!(takeover.is_some(), "the click *is* the opt-in");
}

/// Taking it back from another audio tool that does the same would ping-pong
/// for ever.
#[test]
fn an_external_default_change_is_surfaced_and_never_re_asserted() {
    let app = app_with_sink("CABLE Input");
    let status = not_default("CABLE Input", "Headphones");

    let takeover =
        plan_sink_takeover(&app, &status, AssertTrigger::ExternalDefaultChange, Some("Headphones"));

    assert!(takeover.is_none());
}

#[test]
fn our_own_default_change_is_suppressed_as_an_echo() {
    let app = app_with_sink("CABLE Input");
    let status = SinkStatus::Active { sink: "CABLE Input".into() };

    for trigger in [
        AssertTrigger::Startup,
        AssertTrigger::UserRequest,
        AssertTrigger::ExternalDefaultChange,
    ] {
        assert!(plan_sink_takeover(&app, &status, trigger, Some("CABLE Input")).is_none());
    }
}

#[test]
fn a_start_does_not_take_the_default_the_user_never_opted_into() {
    let app = AppConfig {
        manage_default: false,
        ..app_with_sink("CABLE Input")
    };
    let status = not_default("CABLE Input", "Headphones");

    assert!(plan_sink_takeover(&app, &status, AssertTrigger::Startup, Some("Headphones")).is_none());
}

#[test]
fn sink_removal_mid_session_reports_missing_without_re_taking() {
    let app = app_with_sink("CABLE Input");
    let status = SinkStatus::Missing { configured: "CABLE Input".into() };

    for trigger in [AssertTrigger::Startup, AssertTrigger::UserRequest] {
        assert!(plan_sink_takeover(&app, &status, trigger, Some("Headphones")).is_none());
    }
}

#[test]
fn selecting_a_group_pushes_its_current_gain_outward() {
    let mut snapshot = snapshot_with_group("Game");
    let quiet = gain(10f32.powf(-12.0 / 20.0));
    snapshot.groups[0].gain = quiet;
    snapshot.groups[0].muted = true;

    let values = bound_target_values(&snapshot, &VolumeTarget::Group("Game".into()));

    assert_eq!(values, Some((quiet, true)));
}

#[test]
fn selecting_master_pushes_the_master_gain_outward() {
    let mut snapshot = snapshot_with_group("Game");
    snapshot.master = gain(10f32.powf(-6.0 / 20.0));

    let values = bound_target_values(&snapshot, &VolumeTarget::Master);

    assert_eq!(values, Some((snapshot.master, false)));
}

#[test]
fn a_binding_naming_a_missing_group_pushes_nothing() {
    let snapshot = snapshot_with_group("Game");

    let values = bound_target_values(&snapshot, &VolumeTarget::Group("Gone".into()));

    assert_eq!(values, None);
}

#[test]
fn push_to_mute_restores_the_prior_muted_state() {
    let (held, applied) = push_to_mute(HoldState::default(), HoldEvent::Pressed { actual_muted: false });
    assert_eq!(applied, Some(true), "press always mutes");
    assert!(held.held);

    let (released, applied) = push_to_mute(held, HoldEvent::Released);
    assert_eq!(applied, Some(false), "restores the state from before the press");
    assert!(!released.held);
}

#[test]
fn push_to_mute_leaves_it_muted_if_it_was_already_muted_before_the_press() {
    let (held, _) = push_to_mute(HoldState::default(), HoldEvent::Pressed { actual_muted: true });
    let (_, applied) = push_to_mute(held, HoldEvent::Released);
    assert_eq!(applied, Some(true), "was already muted -- release must not silently unmute");
}

#[test]
fn push_to_mute_restores_on_expiry_when_release_is_missed() {
    let (held, _) = push_to_mute(HoldState::default(), HoldEvent::Pressed { actual_muted: false });
    let (expired, applied) = push_to_mute(held, HoldEvent::Expired);
    assert_eq!(applied, Some(false));
    assert!(!expired.held);
}

#[test]
fn a_second_press_re_arms_from_actual_state_not_remembered_state() {
    let (held, _) = push_to_mute(HoldState::default(), HoldEvent::Pressed { actual_muted: false });
    let (re_armed, applied) = push_to_mute(held, HoldEvent::Pressed { actual_muted: true });
    assert_eq!(applied, Some(true));
    assert!(re_armed.held);

    let (_, applied) = push_to_mute(re_armed, HoldEvent::Released);
    assert_eq!(applied, Some(true), "re-armed from actual_muted=true, not the stale remembered false");
}

#[test]
fn a_stray_release_with_nothing_held_is_a_no_op() {
    let (state, applied) = push_to_mute(HoldState::default(), HoldEvent::Released);
    assert_eq!(applied, None);
    assert_eq!(state, HoldState::default());
}

#[test]
fn needs_onboarding_is_true_when_there_are_no_groups() {
    let snapshot = ConfigSnapshot {
        schema_version: 2,
        master: Gain::unity(),
        muted: false,
        groups: vec![],
        app: AppConfig::default(),
        profiles: Vec::new(),
    };
    assert!(needs_onboarding(&snapshot));
}

#[test]
fn needs_onboarding_is_false_when_a_group_exists() {
    let snapshot = snapshot_with_group("Game");
    assert!(!needs_onboarding(&snapshot));
}

#[test]
fn maps_group_gain_edit_to_a_mixer_command_using_the_positional_group_id() {
    let snapshot = snapshot_with_group("Game");
    let edits = vec![ConfigEdit::SetGroupGain("Game".into(), gain(0.5))];

    let commands = edits_to_mixer_commands(&edits, &snapshot);

    assert_eq!(commands.len(), 1);
    assert!(matches!(
        commands[0],
        MixerCommand::SetGroupGain(GroupId(0), g) if g == gain(0.5)
    ));
}

#[test]
fn unknown_group_name_is_dropped_not_panicking() {
    let snapshot = snapshot_with_group("Game");
    let edits = vec![ConfigEdit::SetGroupGain("Nonexistent".into(), gain(0.5))];

    assert!(edits_to_mixer_commands(&edits, &snapshot).is_empty());
}

#[test]
fn structural_and_rules_edits_have_no_mixer_command_equivalent() {
    let snapshot = snapshot_with_group("Game");
    let edits = vec![
        ConfigEdit::SetRules("Game".into(), vec!["game.exe".into()]),
        ConfigEdit::RemoveGroup("Game".into()),
    ];

    assert!(edits_to_mixer_commands(&edits, &snapshot).is_empty());
}

#[test]
fn spatial_edits_have_no_mixer_command_equivalent() {
    let snapshot = snapshot_with_group("Game");
    let edits = vec![ConfigEdit::SetSpatial("Game".into(), true)];

    assert!(edits_to_mixer_commands(&edits, &snapshot).is_empty());
}

#[test]
fn profile_and_dsp_chain_edits_have_no_mixer_command_equivalent() {
    let snapshot = snapshot_with_group("Game");
    let edits = vec![
        ConfigEdit::SetDspChain("Game".into(), vec![]),
        ConfigEdit::SetProfile(ProfileConfig {
            name: "Gaming".into(),
            hotkey: None,
            master: Gain::unity(),
            muted: false,
            groups: vec![],
        }),
        ConfigEdit::RemoveProfile("Gaming".into()),
        ConfigEdit::SetActiveProfile(None),
    ];

    assert!(edits_to_mixer_commands(&edits, &snapshot).is_empty());
}

#[test]
fn master_and_mute_edits_need_no_group_lookup() {
    let snapshot = snapshot_with_group("Game");
    let edits = vec![ConfigEdit::SetMaster(gain(0.7)), ConfigEdit::SetMuted(true)];

    let commands = edits_to_mixer_commands(&edits, &snapshot);

    assert_eq!(commands.len(), 2);
    assert!(matches!(commands[0], MixerCommand::SetMaster(g) if g == gain(0.7)));
    assert!(matches!(commands[1], MixerCommand::SetMuted(true)));
}

#[test]
fn edits_to_mixer_commands_maps_set_group_mute() {
    let snapshot = snapshot_with_group("Game");
    let edits = vec![ConfigEdit::SetGroupMute("Game".into(), true)];

    let commands = edits_to_mixer_commands(&edits, &snapshot);

    assert_eq!(commands.len(), 1);
    assert!(matches!(commands[0], MixerCommand::SetGroupMute(GroupId(0), true)));
}

/// The edit's own stage index is used, whatever other EQ stages there are.
#[test]
fn edits_to_mixer_commands_maps_set_eq_band_using_its_own_stage_index() {
    let snapshot = snapshot_with_group("Game");
    let spec = EqBandSpec { freq_hz: number(1000.0), gain_db: number(3.0), q: number(1.0) };
    let edits = vec![ConfigEdit::SetEqBand("Game".into(), 1, 0, spec)];

    let commands = edits_to_mixer_commands(&edits, &snapshot);

    assert_eq!(commands.len(), 1);
    assert!(matches!(
        commands[0],
        MixerCommand::SetDspParam { group: GroupId(0), stage: 1, param: DspParam::EqBand { band: 0, spec: s } }
        if s.freq_hz == number(1000.0)
    ));
}

#[test]
fn set_eq_bands_is_a_chain_edit_not_a_param() {
    let snapshot = snapshot_with_group("Game");
    let edits = vec![ConfigEdit::SetEqBands("Game".into(), 0, vec![])];

    let commands = edits_to_mixer_commands(&edits, &snapshot);

    assert!(commands.is_empty());
}

#[test]
fn the_volume_keys_bind_to_master_or_to_a_group() {
    let mut app = AppConfig::default();
    assert!(bound_target(&app).is_none());
    app.volume_bind = Some("master".into());
    assert_eq!(bound_target(&app), Some(VolumeTarget::Master));
    app.volume_bind = Some("Game".into());
    assert_eq!(bound_target(&app), Some(VolumeTarget::Group("Game".into())));
}

#[test]
fn a_group_on_the_default_output_suspends_the_binding() {
    let mut snapshot = snapshot_with_group("Game");
    assert!(compute_suspended(&snapshot, &None), "nothing is bound");
    snapshot.app.volume_bind = Some("Game".into());
    assert!(compute_suspended(&snapshot, &Some("Out".to_string())));
    assert!(!compute_suspended(&snapshot, &Some("Headphones".to_string())));
    assert!(!compute_suspended(&snapshot, &None));
    snapshot.app.volume_bind = Some("Gone".into());
    assert!(compute_suspended(&snapshot, &Some("Headphones".to_string())));
    snapshot.app.volume_bind = Some("master".into());
    assert!(!compute_suspended(&snapshot, &Some("Out".to_string())));
}

#[test]
fn the_endpoint_is_adopted_only_where_it_moved() {
    let target = VolumeTarget::Group("Game".into());
    assert!(adopt_edits(&target, None, true, true).is_empty());
    let edits = adopt_edits(&target, Some(gain(0.5)), true, false);
    assert_eq!(edits.len(), 2);
    assert!(matches!(&edits[0], ConfigEdit::SetGroupGain(name, g) if name == "Game" && *g == gain(0.5)));
    assert!(matches!(&edits[1], ConfigEdit::SetGroupMute(name, true) if name == "Game"));
    let edits = adopt_edits(&VolumeTarget::Master, None, false, true);
    assert!(matches!(edits[..], [ConfigEdit::SetMuted(false)]));
}
