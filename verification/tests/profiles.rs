use splitstream::edit::{edit_path, ConfigEdit, EditPath};
use splitstream::float::Float32;
use splitstream::model::{AppConfig, ConfigSnapshot, GroupConfig, ProfileConfig, ProfileGroupConfig};
use splitstream::profiles::{apply_profile, capture_profile, profile_is_modified};
use splitstream::sample::Gain;

fn level(value: f32) -> Gain {
    Gain::new(Float32::from_bits(value.to_bits())).unwrap()
}

fn group(name: &str, output: &str, gain: f32) -> GroupConfig {
    GroupConfig {
        name: name.into(),
        output_device: output.into(),
        gain: level(gain),
        follow_master: true,
        match_rules: vec!["some.exe".into()],
        dsp: Vec::new(),
        duck: None,
        spatial: false,
        muted: false,
        hotkey_mute: None,
        hotkey_volume_up: None,
        hotkey_volume_down: None,
    }
}

fn snapshot(groups: Vec<GroupConfig>, profiles: Vec<ProfileConfig>) -> ConfigSnapshot {
    ConfigSnapshot {
        schema_version: 2,
        master: Gain::unity(),
        muted: false,
        groups,
        app: AppConfig::default(),
        profiles,
    }
}

#[test]
fn capture_then_apply_is_a_no_op() {
    let snap = snapshot(vec![group("Game", "Speakers", 0.8)], vec![]);
    let captured = capture_profile(&snap, "Gaming");
    let with_profile = snapshot(snap.groups.clone(), vec![captured]);

    assert!(apply_profile(&with_profile, "Gaming").is_empty());
}

#[test]
fn a_gain_only_profile_emits_only_param_path_edits() {
    let live = group("Game", "Speakers", 1.0);
    let mut target = live.clone();
    target.gain = level(0.5);
    let profile = ProfileConfig {
        name: "Quiet".into(),
        hotkey: None,
        master: Gain::unity(),
        muted: false,
        groups: vec![ProfileGroupConfig {
            name: target.name.clone(),
            gain: target.gain,
            follow_master: target.follow_master,
            output_device: target.output_device.clone(),
            dsp: target.dsp.clone(),
            duck: target.duck.clone(),
            spatial: target.spatial,
            muted: target.muted,
        }],
    };
    let snap = snapshot(vec![live], vec![profile]);

    let edits = apply_profile(&snap, "Quiet");
    assert_eq!(edits.len(), 1);
    assert!(matches!(edits[0], ConfigEdit::SetGroupGain(..)));
    for edit in &edits {
        assert_eq!(edit_path(edit), EditPath::Param);
    }
}

#[test]
fn apply_skips_entries_for_groups_that_no_longer_exist() {
    let profile = ProfileConfig {
        name: "Gaming".into(),
        hotkey: None,
        master: Gain::unity(),
        muted: false,
        groups: vec![ProfileGroupConfig {
            name: "Deleted".into(),
            gain: Gain::unity(),
            follow_master: true,
            output_device: "Speakers".into(),
            dsp: Vec::new(),
            duck: None,
            spatial: false,
            muted: false,
        }],
    };
    let snap = snapshot(vec![group("Game", "Speakers", 1.0)], vec![profile]);

    assert!(apply_profile(&snap, "Gaming").is_empty());
}

#[test]
fn apply_emits_nothing_for_groups_the_profile_does_not_mention() {
    let profile = ProfileConfig {
        name: "Gaming".into(),
        hotkey: None,
        master: Gain::unity(),
        muted: false,
        groups: vec![], // mentions no groups at all
    };
    let snap = snapshot(vec![group("Game", "Speakers", 1.0)], vec![profile]);

    assert!(apply_profile(&snap, "Gaming").is_empty());
}

#[test]
fn an_unknown_profile_name_yields_no_edits() {
    let snap = snapshot(vec![group("Game", "Speakers", 1.0)], vec![]);
    assert!(apply_profile(&snap, "Nonexistent").is_empty());
}

#[test]
fn profile_is_modified_is_false_immediately_after_capture() {
    let snap = snapshot(vec![group("Game", "Speakers", 1.0)], vec![]);
    let captured = capture_profile(&snap, "Gaming");
    let with_profile = snapshot(snap.groups.clone(), vec![captured]);

    assert!(!profile_is_modified(&with_profile, "Gaming"));
}

#[test]
fn profile_is_modified_detects_a_changed_gain() {
    let snap = snapshot(vec![group("Game", "Speakers", 1.0)], vec![]);
    let captured = capture_profile(&snap, "Gaming");
    let mut live = snap.groups.clone();
    live[0].gain = level(0.5);
    let modified = snapshot(live, vec![captured]);

    assert!(profile_is_modified(&modified, "Gaming"));
}

#[test]
fn applying_a_profile_never_changes_match_rules() {
    // ProfileGroupConfig has no match_rules field at all — a profile
    // batch can structurally never contain a SetRules edit.
    let profile = ProfileConfig {
        name: "Gaming".into(),
        hotkey: None,
        master: Gain::unity(),
        muted: false,
        groups: vec![ProfileGroupConfig {
            name: "Game".into(),
            gain: level(0.5),
            follow_master: true,
            output_device: "Speakers".into(),
            dsp: Vec::new(),
            duck: None,
            spatial: false,
            muted: false,
        }],
    };
    let snap = snapshot(vec![group("Game", "Speakers", 1.0)], vec![profile]);

    let edits = apply_profile(&snap, "Gaming");
    assert!(!edits.is_empty());
    assert!(!edits.iter().any(|e| matches!(e, ConfigEdit::SetRules(..))));
}
