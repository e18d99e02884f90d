use splitstream::model::{AppConfig, ConfigSnapshot, GroupConfig};
use splitstream::sample::Gain;
use splitstream::sink::{
    groups_outputting_to_sink, lacks_catch_all, quit_would_strand, resolve_sink_status, SinkStatus,
};

fn devices(names: &[&str]) -> Vec<String> {
    names.iter().map(|n| n.to_string()).collect()
}

fn snapshot_with_group(name: &str, output_device: &str, match_rules: &[&str]) -> ConfigSnapshot {
    ConfigSnapshot {
        schema_version: 2,
        master: Gain::unity(),
        muted: false,
        groups: vec![GroupConfig {
            name: name.into(),
            output_device: output_device.into(),
            gain: Gain::unity(),
            follow_master: true,
            match_rules: match_rules.iter().map(|r| r.to_string()).collect(),
            dsp: Vec::new(),
            duck: None,
            spatial: false,
            muted: false,
            hotkey_mute: None,
            hotkey_volume_up: None,
            hotkey_volume_down: None,
        }],
        app: AppConfig::default(),
        profiles: Vec::new(),
    }
}

#[test]
fn resolve_sink_status_reports_not_configured_when_no_sink_is_set() {
    let available = devices(&["Headphones", "CABLE Input"]);

    let status = resolve_sink_status(None, &available, Some("Headphones"));

    assert_eq!(status, SinkStatus::NotConfigured);
}

#[test]
fn resolve_sink_status_reports_missing_when_the_sink_is_absent() {
    let available = devices(&["Headphones"]);

    let status = resolve_sink_status(Some("CABLE Input"), &available, Some("Headphones"));

    assert_eq!(
        status,
        SinkStatus::Missing {
            configured: "CABLE Input".to_string()
        }
    );
}

#[test]
fn resolve_sink_status_reports_not_default_and_names_the_current_default() {
    let available = devices(&["Headphones", "CABLE Input"]);

    let status = resolve_sink_status(Some("CABLE Input"), &available, Some("Headphones"));

    assert_eq!(
        status,
        SinkStatus::NotDefault {
            sink: "CABLE Input".to_string(),
            current_default: Some("Headphones".to_string()),
        }
    );
}

#[test]
fn resolve_sink_status_reports_active_when_the_sink_is_the_default() {
    let available = devices(&["Headphones", "CABLE Input"]);

    let status = resolve_sink_status(Some("CABLE Input"), &available, Some("CABLE Input"));

    assert_eq!(
        status,
        SinkStatus::Active {
            sink: "CABLE Input".to_string()
        }
    );
}

/// "The default could not be read" must never be reported as "the sink is in
/// effect".
#[test]
fn resolve_sink_status_reports_not_default_when_the_current_default_is_unknown() {
    let available = devices(&["CABLE Input"]);

    let status = resolve_sink_status(Some("CABLE Input"), &available, None);

    assert_eq!(
        status,
        SinkStatus::NotDefault {
            sink: "CABLE Input".to_string(),
            current_default: None,
        }
    );
}

#[test]
fn the_sink_being_default_with_nothing_recorded_would_strand_on_quit() {
    let status = SinkStatus::Active {
        sink: "CABLE Input".into(),
    };

    assert!(quit_would_strand(None, &status));
}

#[test]
fn a_recorded_previous_default_means_quitting_restores_it() {
    let status = SinkStatus::Active {
        sink: "CABLE Input".into(),
    };

    assert!(!quit_would_strand(Some("Headphones"), &status));
}

#[test]
fn a_sink_that_is_not_the_default_cannot_strand() {
    let status = SinkStatus::NotDefault {
        sink: "CABLE Input".into(),
        current_default: Some("Headphones".into()),
    };

    assert!(!quit_would_strand(None, &status));
}

#[test]
fn an_unconfigured_or_missing_sink_cannot_strand() {
    assert!(!quit_would_strand(None, &SinkStatus::NotConfigured));
    assert!(!quit_would_strand(
        None,
        &SinkStatus::Missing {
            configured: "CABLE Input".into()
        }
    ));
}

#[test]
fn a_config_whose_groups_have_no_catch_all_rule_is_flagged() {
    let snapshot = snapshot_with_group("Game", "Headphones", &["game.exe"]);

    assert!(lacks_catch_all(&snapshot));
}

#[test]
fn a_config_with_a_catch_all_rule_is_not_flagged() {
    let snapshot = snapshot_with_group("Game", "Headphones", &["*"]);

    assert!(!lacks_catch_all(&snapshot));
}

/// The two device pickers are independent, so nothing stops both landing on
/// the same endpoint.
#[test]
fn a_group_pointed_at_the_sink_device_is_flagged() {
    let snapshot = snapshot_with_group("Game", "CABLE Input", &["*"]);

    let offenders = groups_outputting_to_sink(&snapshot, Some("CABLE Input"));

    assert_eq!(offenders, vec!["Game"]);
}

#[test]
fn groups_on_real_devices_are_not_flagged() {
    let snapshot = snapshot_with_group("Game", "Headphones", &["*"]);

    assert!(groups_outputting_to_sink(&snapshot, Some("CABLE Input")).is_empty());
}

#[test]
fn no_configured_sink_flags_no_groups() {
    let snapshot = snapshot_with_group("Game", "Headphones", &["*"]);

    assert!(groups_outputting_to_sink(&snapshot, None).is_empty());
}

/// A sink that is not there cannot be made the default, so it must read
/// "install it", not "switch to it".
#[test]
fn resolve_sink_status_reports_missing_even_when_it_is_named_as_the_default() {
    let available = devices(&["Headphones"]);

    let status = resolve_sink_status(Some("CABLE Input"), &available, Some("CABLE Input"));

    assert_eq!(
        status,
        SinkStatus::Missing {
            configured: "CABLE Input".to_string()
        }
    );
}
