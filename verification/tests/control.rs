use splitstream::chord::{HotkeyChord, HotkeyKey};
use splitstream::command::MixerCommand;
use splitstream::config;
use splitstream::config::{
    default_config_template, ConfigError, RawAppConfig, RawConfig, RawDspStage, RawDuck, RawEqBand, RawGroup,
    RawHotkeys, RawProfile, RawProfileGroup, Refusal, SUPPORTED_SCHEMA_VERSION,
};
use splitstream::delta::diff;
use splitstream::doc::{Item, Section, Value};
use splitstream::dsp::{DspSpec, EqBandSpec};
use splitstream::edit::{edit_path, group_id_for, ConfigEdit, EditPath};
use splitstream::float::{Float32, Float64};
use splitstream::model::{
    AccentChoice, AppConfig, ConfigSnapshot, DspStageConfig, DuckSpecConfig, GroupConfig,
    ProfileConfig, ProfileGroupConfig, ThemeChoice,
};
use splitstream::rules::{group_rules, GlobPattern, MatchRule};
use splitstream::sample::{Gain, GroupId};
use splitstream::store::{ConfigStore, StoreError};
use std::cell::RefCell;

/// A number of the file as the library holds it.
fn number(value: f32) -> Float32 {
    Float32::from_bits(value.to_bits())
}

fn level(value: f32) -> Gain {
    Gain::new(number(value)).unwrap()
}

type Read<T> = Result<T, String>;

fn read_text(t: &toml::Table, key: &str) -> Read<Option<String>> {
    match t.get(key) {
        None => Ok(None),
        Some(toml::Value::String(s)) => Ok(Some(s.clone())),
        Some(_) => Err(format!("`{key}` is not a string")),
    }
}

fn need_text(t: &toml::Table, key: &str) -> Read<String> {
    read_text(t, key)?.ok_or(format!("missing field `{key}`"))
}

fn read_flag(t: &toml::Table, key: &str, default: bool) -> Read<bool> {
    match t.get(key) {
        None => Ok(default),
        Some(toml::Value::Boolean(b)) => Ok(*b),
        Some(_) => Err(format!("`{key}` is not a boolean")),
    }
}

fn read_number(t: &toml::Table, key: &str, default: Option<f32>) -> Read<Float32> {
    match (t.get(key), default) {
        (None, Some(d)) => Ok(number(d)),
        (None, None) => Err(format!("missing field `{key}`")),
        (Some(toml::Value::Float(f)), _) => Ok(number(*f as f32)),
        (Some(toml::Value::Integer(i)), _) => Ok(number(*i as f32)),
        (Some(_), _) => Err(format!("`{key}` is not a number")),
    }
}

fn read_texts(t: &toml::Table, key: &str) -> Read<Vec<String>> {
    match t.get(key) {
        None => Ok(Vec::new()),
        Some(toml::Value::Array(items)) => items
            .iter()
            .map(|v| v.as_str().map(|s| s.to_string()).ok_or(format!("`{key}` holds a non-string")))
            .collect(),
        Some(_) => Err(format!("`{key}` is not an array")),
    }
}

fn read_tables(t: &toml::Table, key: &str) -> Read<Vec<toml::Table>> {
    match t.get(key) {
        None => Ok(Vec::new()),
        Some(toml::Value::Array(items)) => items
            .iter()
            .map(|v| v.as_table().cloned().ok_or(format!("`{key}` holds a non-table")))
            .collect(),
        Some(_) => Err(format!("`{key}` is not an array")),
    }
}

fn read_table(t: &toml::Table, key: &str) -> Read<Option<toml::Table>> {
    match t.get(key) {
        None => Ok(None),
        Some(toml::Value::Table(inner)) => Ok(Some(inner.clone())),
        Some(_) => Err(format!("`{key}` is not a table")),
    }
}

fn read_stage(t: &toml::Table) -> Read<RawDspStage> {
    let bypassed = read_flag(t, "bypassed", false)?;
    match need_text(t, "type")?.as_str() {
        "eq" => {
            if !t.contains_key("bands") {
                return Err("missing field `bands`".to_string());
            }
            let mut bands = Vec::new();
            for b in read_tables(t, "bands")? {
                bands.push(RawEqBand {
                    freq_hz: read_number(&b, "freq_hz", None)?,
                    gain_db: read_number(&b, "gain_db", None)?,
                    q: read_number(&b, "q", None)?,
                });
            }
            Ok(RawDspStage::Eq { bands, bypassed })
        }
        "limiter" => {
            Ok(RawDspStage::Limiter { ceiling_db: read_number(t, "ceiling_db", None)?, bypassed })
        }
        other => Err(format!("unknown stage type `{other}`")),
    }
}

fn read_stages(t: &toml::Table) -> Read<Vec<RawDspStage>> {
    read_tables(t, "dsp")?.iter().map(read_stage).collect()
}

fn read_duck(t: &toml::Table) -> Read<Option<RawDuck>> {
    match read_table(t, "duck")? {
        None => Ok(None),
        Some(d) => Ok(Some(RawDuck {
            trigger: need_text(&d, "trigger")?,
            amount_db: read_number(&d, "amount_db", None)?,
            threshold_db: read_number(&d, "threshold_db", None)?,
            attack_ms: read_number(&d, "attack_ms", None)?,
            release_ms: read_number(&d, "release_ms", None)?,
        })),
    }
}

fn read_group(t: &toml::Table) -> Read<RawGroup> {
    Ok(RawGroup {
        name: need_text(t, "name")?,
        output_device: need_text(t, "output_device")?,
        gain: read_number(t, "gain", Some(1.0))?,
        follow_master: read_flag(t, "follow_master", false)?,
        match_rules: read_texts(t, "match_rules")?,
        dsp: read_stages(t)?,
        duck: read_duck(t)?,
        spatial: read_flag(t, "spatial", false)?,
        muted: read_flag(t, "muted", false)?,
        hotkey_mute: read_text(t, "hotkey_mute")?,
        hotkey_volume_up: read_text(t, "hotkey_volume_up")?,
        hotkey_volume_down: read_text(t, "hotkey_volume_down")?,
    })
}

fn read_profile(t: &toml::Table) -> Read<RawProfile> {
    let mut group = Vec::new();
    for g in read_tables(t, "group")? {
        group.push(RawProfileGroup {
            name: need_text(&g, "name")?,
            output_device: need_text(&g, "output_device")?,
            gain: read_number(&g, "gain", Some(1.0))?,
            follow_master: read_flag(&g, "follow_master", false)?,
            dsp: read_stages(&g)?,
            duck: read_duck(&g)?,
            spatial: read_flag(&g, "spatial", false)?,
            muted: read_flag(&g, "muted", false)?,
        });
    }
    Ok(RawProfile {
        name: need_text(t, "name")?,
        hotkey: read_text(t, "hotkey")?,
        master: read_number(t, "master", Some(1.0))?,
        muted: read_flag(t, "muted", false)?,
        group,
    })
}

fn read_config(text: &str) -> Read<RawConfig> {
    let t: toml::Table = toml::from_str(text).map_err(|e| e.to_string())?;
    let app = read_table(&t, "app")?.unwrap_or_default();
    let keys = read_table(&t, "hotkeys")?.unwrap_or_default();
    Ok(RawConfig {
        schema_version: match t.get("schema_version") {
            None => SUPPORTED_SCHEMA_VERSION,
            Some(v) => v.as_integer().ok_or("`schema_version` is not a number")? as u32,
        },
        master: read_number(&t, "master", Some(1.0))?,
        muted: read_flag(&t, "muted", false)?,
        group: read_tables(&t, "group")?.iter().map(read_group).collect::<Read<Vec<_>>>()?,
        app: RawAppConfig {
            autostart: read_flag(&app, "autostart", false)?,
            active_profile: read_text(&app, "active_profile")?,
            volume_bind: read_text(&app, "volume_bind")?,
            theme: read_text(&app, "theme")?,
            accent: read_text(&app, "accent")?,
            sink_device: read_text(&app, "sink_device")?,
            manage_default: read_flag(&app, "manage_default", false)?,
            previous_default: read_text(&app, "previous_default")?,
            excluded: read_texts(&app, "excluded")?,
        },
        hotkeys: RawHotkeys {
            mute_master: read_text(&keys, "mute_master")?,
            push_to_mute: read_text(&keys, "push_to_mute")?,
            master_volume_up: read_text(&keys, "master_volume_up")?,
            master_volume_down: read_text(&keys, "master_volume_down")?,
        },
        profile: read_tables(&t, "profile")?.iter().map(read_profile).collect::<Read<Vec<_>>>()?,
    })
}

/// Reads a configuration file's text.
fn parse(text: &str) -> Result<ConfigSnapshot, ConfigError> {
    match read_config(text) {
        Ok(raw) => config::parse(raw),
        Err(e) => Err(ConfigError::Parse(e)),
    }
}

fn group(name: &str, output: &str, gain: f32, follow_master: bool) -> GroupConfig {
    GroupConfig {
        name: name.into(),
        output_device: output.into(),
        gain: level(gain),
        follow_master,
        match_rules: vec![],
        dsp: Vec::new(),
        duck: None,
        spatial: false,
        muted: false,
        hotkey_mute: None,
        hotkey_volume_up: None,
        hotkey_volume_down: None,
    }
}

#[test]
fn parses_a_valid_config() {
    let toml = r#"
        schema_version = 2
        master = 0.8

        [[group]]
        name = "Game"
        output_device = "Speakers"
        gain = 1.0
        follow_master = true
    "#;
    let snapshot = parse(toml).unwrap();
    assert_eq!(snapshot.schema_version, 2);
    assert_eq!(snapshot.master, level(0.8));
    assert_eq!(snapshot.groups.len(), 1);
    assert_eq!(snapshot.groups[0].name, "Game");
}

#[test]
fn parses_muted_app_and_hotkeys() {
    let toml = r#"
        schema_version = 2
        master = 0.8
        muted = true

        [app]
        autostart = true

        [hotkeys]
        mute_master = "Ctrl+Alt+M"
    "#;
    let snapshot = parse(toml).unwrap();
    assert!(snapshot.muted);
    assert!(snapshot.app.autostart);
    assert_eq!(
        snapshot.app.hotkeys.mute_master,
        Some(HotkeyChord {
            ctrl: true,
            alt: true,
            shift: false,
            key: HotkeyKey::Char('M'),
        })
    );
}

#[test]
fn volume_bind_and_per_group_hotkeys_round_trip_through_toml() {
    let toml = r#"
        schema_version = 2
        master = 1.0

        [app]
        volume_bind = "Game"

        [hotkeys]
        push_to_mute = "Ctrl+Alt+Space"
        master_volume_up = "Ctrl+Alt+Up"
        master_volume_down = "Ctrl+Alt+Down"

        [[group]]
        name = "Game"
        output_device = "Speakers"
        hotkey_mute = "Ctrl+Alt+1"
        hotkey_volume_up = "Ctrl+Shift+Up"
        hotkey_volume_down = "Ctrl+Shift+Down"
    "#;
    let snapshot = parse(toml).unwrap();
    assert_eq!(snapshot.app.volume_bind, Some("Game".to_string()));
    assert_eq!(
        snapshot.app.hotkeys.push_to_mute,
        Some(HotkeyChord { ctrl: true, alt: true, shift: false, key: HotkeyKey::Space })
    );
    assert_eq!(
        snapshot.app.hotkeys.master_volume_up,
        Some(HotkeyChord { ctrl: true, alt: true, shift: false, key: HotkeyKey::Up })
    );
    assert_eq!(
        snapshot.app.hotkeys.master_volume_down,
        Some(HotkeyChord { ctrl: true, alt: true, shift: false, key: HotkeyKey::Down })
    );
    let group = &snapshot.groups[0];
    assert_eq!(
        group.hotkey_mute,
        Some(HotkeyChord { ctrl: true, alt: true, shift: false, key: HotkeyKey::Char('1') })
    );
    assert_eq!(
        group.hotkey_volume_up,
        Some(HotkeyChord { ctrl: true, shift: true, alt: false, key: HotkeyKey::Up })
    );
    assert_eq!(
        group.hotkey_volume_down,
        Some(HotkeyChord { ctrl: true, shift: true, alt: false, key: HotkeyKey::Down })
    );
}

#[test]
fn theme_and_accent_round_trip_through_toml() {
    let toml = r#"
        schema_version = 2
        master = 1.0

        [app]
        theme = "light"
        accent = "teal"
    "#;
    let snapshot = parse(toml).unwrap();
    assert_eq!(snapshot.app.theme, ThemeChoice::Light);
    assert_eq!(snapshot.app.accent, AccentChoice::Teal);
}

#[test]
fn an_absent_theme_or_accent_defaults_to_system_and_brand() {
    let toml = r#"
        schema_version = 2
        master = 1.0
    "#;
    let snapshot = parse(toml).unwrap();
    assert_eq!(snapshot.app.theme, ThemeChoice::System);
    assert_eq!(snapshot.app.accent, AccentChoice::Brand);
}

#[test]
fn an_unrecognised_theme_value_is_a_validation_error() {
    let toml = r#"
        schema_version = 2
        master = 1.0

        [app]
        theme = "purple"
    "#;
    assert!(matches!(parse(toml), Err(ConfigError::Invalid(_))));
}

#[test]
fn an_unrecognised_accent_value_is_a_validation_error() {
    let toml = r#"
        schema_version = 2
        master = 1.0

        [app]
        accent = "chartreuse"
    "#;
    assert!(matches!(parse(toml), Err(ConfigError::Invalid(_))));
}

#[test]
fn an_absent_hotkey_registers_nothing() {
    let toml = r#"
        schema_version = 2
        master = 1.0

        [[group]]
        name = "Game"
        output_device = "Speakers"
    "#;
    let snapshot = parse(toml).unwrap();
    assert_eq!(snapshot.app.volume_bind, None);
    assert_eq!(snapshot.app.hotkeys.push_to_mute, None);
    assert_eq!(snapshot.app.hotkeys.master_volume_up, None);
    assert_eq!(snapshot.app.hotkeys.master_volume_down, None);
    let group = &snapshot.groups[0];
    assert_eq!(group.hotkey_mute, None);
    assert_eq!(group.hotkey_volume_up, None);
    assert_eq!(group.hotkey_volume_down, None);
}

#[test]
fn parses_a_profile_with_a_group_and_active_profile() {
    let toml = r#"
        schema_version = 2
        master = 1.0

        [app]
        active_profile = "Gaming"

        [[profile]]
        name = "Gaming"
        hotkey = "Ctrl+Alt+1"
        master = 0.8
        muted = false

          [[profile.group]]
          name = "Game"
          gain = 1.0
          follow_master = true
          output_device = "Headphones"
          spatial = true
    "#;
    let snapshot = parse(toml).unwrap();
    assert_eq!(snapshot.app.active_profile, Some("Gaming".to_string()));
    assert_eq!(snapshot.profiles.len(), 1);
    let p = &snapshot.profiles[0];
    assert_eq!(p.name, "Gaming");
    assert_eq!(p.master, level(0.8));
    assert!(!p.muted);
    assert_eq!(
        p.hotkey,
        Some(HotkeyChord { ctrl: true, alt: true, shift: false, key: HotkeyKey::Char('1') })
    );
    assert_eq!(p.groups.len(), 1);
    assert_eq!(p.groups[0].output_device, "Headphones");
    assert!(p.groups[0].spatial);
}

#[test]
fn a_config_with_no_profiles_behaves_byte_for_byte_as_today() {
    let toml = "schema_version = 2\nmaster = 1.0\n";
    let snapshot = parse(toml).unwrap();
    assert!(snapshot.profiles.is_empty());
    assert_eq!(snapshot.app.active_profile, None);
}

#[test]
fn missing_muted_app_and_hotkeys_default_to_unset() {
    let toml = "schema_version = 2\nmaster = 1.0\n";
    let snapshot = parse(toml).unwrap();
    assert!(!snapshot.muted);
    assert!(!snapshot.app.autostart);
    assert!(snapshot.app.hotkeys.mute_master.is_none());
}

#[test]
fn invalid_hotkey_chord_is_a_validation_error() {
    let toml = r#"
        schema_version = 2
        master = 1.0

        [hotkeys]
        mute_master = "NotAChord"
    "#;
    assert!(matches!(parse(toml), Err(ConfigError::Invalid(_))));
}

#[test]
fn missing_schema_version_defaults_to_supported() {
    let toml = r#"
        master = 1.0
    "#;
    let snapshot = parse(toml).unwrap();
    assert_eq!(snapshot.schema_version, SUPPORTED_SCHEMA_VERSION);
}

#[test]
fn schema_version_newer_than_supported_is_invalid() {
    let toml = "schema_version = 99\nmaster = 1.0\n";
    assert!(matches!(parse(toml), Err(ConfigError::Invalid(_))));
}

#[test]
fn negative_gain_is_invalid() {
    let toml = "schema_version = 2\nmaster = -1.0\n";
    assert!(matches!(parse(toml), Err(ConfigError::Invalid(_))));
}

#[test]
fn malformed_toml_is_a_parse_error() {
    let toml = "this is not [ valid toml";
    assert!(matches!(parse(toml), Err(ConfigError::Parse(_))));
}


fn group_with_rules(
    name: &str,
    output: &str,
    gain: f32,
    follow_master: bool,
    rules: &[&str],
) -> GroupConfig {
    GroupConfig {
        match_rules: rules.iter().map(|r| r.to_string()).collect(),
        ..group(name, output, gain, follow_master)
    }
}

#[test]
fn diff_reports_unchanged_for_identical_snapshots() {
    let a = ConfigSnapshot {
        schema_version: 2,
        master: Gain::unity(),
        muted: false,
        app: AppConfig::default(),
        profiles: Vec::new(),
        groups: vec![group("Game", "Out", 1.0, true)],
    };
    let b = ConfigSnapshot {
        schema_version: 2,
        master: Gain::unity(),
        muted: false,
        app: AppConfig::default(),
        profiles: Vec::new(),
        groups: vec![group("Game", "Out", 1.0, true)],
    };
    assert!(diff(&a, &b).is_unchanged());
}

#[test]
fn diff_reports_params_for_a_gain_only_change() {
    let a = ConfigSnapshot {
        schema_version: 2,
        master: Gain::unity(),
        muted: false,
        app: AppConfig::default(),
        profiles: Vec::new(),
        groups: vec![group("Game", "Out", 1.0, true)],
    };
    let b = ConfigSnapshot {
        schema_version: 2,
        master: Gain::unity(),
        muted: false,
        app: AppConfig::default(),
        profiles: Vec::new(),
        groups: vec![group("Game", "Out", 0.5, true)],
    };
    let delta = diff(&a, &b);
    assert!(!delta.structural);
    assert!(delta.rules.is_none());
    assert_eq!(delta.params.len(), 1);
    assert!(matches!(delta.params[0], MixerCommand::SetGroupGain(GroupId(0), _)));
}

#[test]
fn a_changed_group_muted_diffs_as_a_param_not_structural() {
    let a = ConfigSnapshot {
        schema_version: 2,
        master: Gain::unity(),
        muted: false,
        app: AppConfig::default(),
        profiles: Vec::new(),
        groups: vec![group("Game", "Out", 1.0, true)],
    };
    let mut b = a.clone();
    b.groups[0].muted = true;

    let delta = diff(&a, &b);
    assert!(!delta.structural);
    assert!(delta.rules.is_none());
    assert_eq!(delta.params.len(), 1);
    assert!(matches!(
        delta.params[0],
        MixerCommand::SetGroupMute(GroupId(0), true)
    ));
}

#[test]
fn diff_reports_structural_for_a_renamed_group() {
    let a = ConfigSnapshot {
        schema_version: 2,
        master: Gain::unity(),
        muted: false,
        app: AppConfig::default(),
        profiles: Vec::new(),
        groups: vec![group("Game", "Out", 1.0, true)],
    };
    let b = ConfigSnapshot {
        schema_version: 2,
        master: Gain::unity(),
        muted: false,
        app: AppConfig::default(),
        profiles: Vec::new(),
        groups: vec![group("Music", "Out", 1.0, true)],
    };
    let delta = diff(&a, &b);
    assert!(delta.structural);
    assert!(delta.params.is_empty());
    assert!(delta.rules.is_none());
}

#[test]
fn diff_reports_structural_for_a_changed_output_device() {
    let a = ConfigSnapshot {
        schema_version: 2,
        master: Gain::unity(),
        muted: false,
        app: AppConfig::default(),
        profiles: Vec::new(),
        groups: vec![group("Game", "Speakers", 1.0, true)],
    };
    let b = ConfigSnapshot {
        schema_version: 2,
        master: Gain::unity(),
        muted: false,
        app: AppConfig::default(),
        profiles: Vec::new(),
        groups: vec![group("Game", "Headphones", 1.0, true)],
    };
    assert!(diff(&a, &b).structural);
}

#[test]
fn diff_reports_rules_for_a_match_rules_only_change() {
    let a = ConfigSnapshot {
        schema_version: 2,
        master: Gain::unity(),
        muted: false,
        app: AppConfig::default(),
        profiles: Vec::new(),
        groups: vec![group_with_rules("Game", "Out", 1.0, true, &[])],
    };
    let b = ConfigSnapshot {
        schema_version: 2,
        master: Gain::unity(),
        muted: false,
        app: AppConfig::default(),
        profiles: Vec::new(),
        groups: vec![group_with_rules("Game", "Out", 1.0, true, &["game.exe"])],
    };
    let delta = diff(&a, &b);
    assert!(!delta.structural);
    assert!(delta.params.is_empty());
    let rules = delta.rules.expect("expected a rules delta");
    assert_eq!(rules.len(), 1);
    assert_eq!(rules[0].group, GroupId(0));
    assert_eq!(rules[0].rules, vec![MatchRule::ExactName("game.exe".into())]);
}

#[test]
fn diff_reports_both_params_and_rules_for_a_simultaneous_edit() {
    // One save that changes a gain and a match rule delivers both.
    let a = ConfigSnapshot {
        schema_version: 2,
        master: Gain::unity(),
        muted: false,
        app: AppConfig::default(),
        profiles: Vec::new(),
        groups: vec![group_with_rules("Game", "Out", 1.0, true, &[])],
    };
    let b = ConfigSnapshot {
        schema_version: 2,
        master: Gain::unity(),
        muted: false,
        app: AppConfig::default(),
        profiles: Vec::new(),
        groups: vec![group_with_rules("Game", "Out", 0.5, true, &["game.exe"])],
    };
    let delta = diff(&a, &b);
    assert!(!delta.structural);
    assert_eq!(delta.params.len(), 1);
    assert!(matches!(delta.params[0], MixerCommand::SetGroupGain(GroupId(0), _)));
    assert!(delta.rules.is_some(), "rules change must not be dropped");
}

#[test]
fn group_rules_builds_one_entry_per_group_in_config_order() {
    let snapshot = ConfigSnapshot {
        schema_version: 2,
        master: Gain::unity(),
        muted: false,
        app: AppConfig::default(),
        profiles: Vec::new(),
        groups: vec![
            group_with_rules("Game", "Out", 1.0, true, &["game.exe"]),
            group_with_rules("Music", "Out", 1.0, true, &["music*.exe"]),
        ],
    };
    let rules = group_rules(&snapshot);
    assert_eq!(rules.len(), 2);
    assert_eq!(rules[0].group, GroupId(0));
    assert_eq!(rules[0].rules, vec![MatchRule::ExactName("game.exe".into())]);
    assert_eq!(rules[1].group, GroupId(1));
    assert_eq!(
        rules[1].rules,
        vec![MatchRule::Glob(GlobPattern::new("music*.exe"))]
    );
}

#[test]
fn parses_eq_and_limiter_dsp_stages() {
    let toml = r#"
        schema_version = 2
        master = 1.0

        [[group]]
        name = "Music"
        output_device = "Out"

        [[group.dsp]]
        type = "eq"
        bands = [{ freq_hz = 200.0, gain_db = 3.0, q = 0.7 }]

        [[group.dsp]]
        type = "limiter"
        ceiling_db = -1.0
        bypassed = true
    "#;
    let snapshot = parse(toml).unwrap();
    let dsp = &snapshot.groups[0].dsp;
    assert_eq!(dsp.len(), 2);
    assert!(matches!(dsp[0].spec, DspSpec::Eq { .. }));
    assert!(!dsp[0].bypassed);
    assert!(matches!(dsp[1].spec, DspSpec::Limiter { ceiling_db } if ceiling_db == number(-1.0)));
    assert!(dsp[1].bypassed);
}

#[test]
fn eq_band_with_non_positive_q_is_invalid() {
    let toml = r#"
        schema_version = 2
        master = 1.0

        [[group]]
        name = "Music"
        output_device = "Out"

        [[group.dsp]]
        type = "eq"
        bands = [{ freq_hz = 200.0, gain_db = 3.0, q = 0.0 }]
    "#;
    assert!(matches!(parse(toml), Err(ConfigError::Invalid(_))));
}

#[test]
fn parses_duck_config() {
    let toml = r#"
        schema_version = 2
        master = 1.0

        [[group]]
        name = "Voice"
        output_device = "Out"

        [[group]]
        name = "Music"
        output_device = "Out"

        [group.duck]
        trigger = "Voice"
        amount_db = 12.0
        threshold_db = -40.0
        attack_ms = 5.0
        release_ms = 200.0
    "#;
    let snapshot = parse(toml).unwrap();
    let duck = snapshot.groups[1].duck.as_ref().expect("Music should have duck config");
    assert_eq!(duck.trigger, "Voice");
    assert_eq!(duck.amount_db, number(12.0));
}

#[test]
fn unknown_duck_trigger_name_is_invalid() {
    let toml = r#"
        schema_version = 2
        master = 1.0

        [[group]]
        name = "Music"
        output_device = "Out"

        [group.duck]
        trigger = "Nonexistent"
        amount_db = 12.0
        threshold_db = -40.0
        attack_ms = 5.0
        release_ms = 200.0
    "#;
    assert!(matches!(parse(toml), Err(ConfigError::Invalid(_))));
}

#[test]
fn a_duck_cycle_is_invalid() {
    let toml = r#"
        schema_version = 2
        master = 1.0

        [[group]]
        name = "A"
        output_device = "Out"
        [group.duck]
        trigger = "B"
        amount_db = 6.0
        threshold_db = -40.0
        attack_ms = 5.0
        release_ms = 200.0

        [[group]]
        name = "B"
        output_device = "Out"
        [group.duck]
        trigger = "A"
        amount_db = 6.0
        threshold_db = -40.0
        attack_ms = 5.0
        release_ms = 200.0
    "#;
    assert!(matches!(parse(toml), Err(ConfigError::Invalid(_))));
}

fn group_with_dsp(name: &str, output: &str, dsp: Vec<DspStageConfig>) -> GroupConfig {
    GroupConfig {
        dsp,
        ..group(name, output, 1.0, true)
    }
}

#[test]
fn diff_reports_dsp_chains_for_a_stage_shape_change() {
    let a = ConfigSnapshot {
        schema_version: 2,
        master: Gain::unity(),
        muted: false,
        app: AppConfig::default(),
        profiles: Vec::new(),
        groups: vec![group_with_dsp("Game", "Out", vec![])],
    };
    let b = ConfigSnapshot {
        schema_version: 2,
        master: Gain::unity(),
        muted: false,
        app: AppConfig::default(),
        profiles: Vec::new(),
        groups: vec![group_with_dsp(
            "Game",
            "Out",
            vec![DspStageConfig {
                spec: DspSpec::Limiter { ceiling_db: number(-1.0) },
                bypassed: false,
            }],
        )],
    };
    let delta = diff(&a, &b);
    assert!(!delta.structural);
    let chains = delta.dsp_chains.expect("expected a dsp_chains delta");
    assert_eq!(chains.len(), 1);
    assert_eq!(chains[0].0, GroupId(0));
    assert_eq!(chains[0].1, vec![DspSpec::Limiter { ceiling_db: number(-1.0) }]);
}

#[test]
fn diff_reports_a_fast_path_bypass_command_not_a_chain_rebuild_for_a_bypass_only_change() {
    let stage = |bypassed: bool| DspStageConfig {
        spec: DspSpec::Limiter { ceiling_db: number(-1.0) },
        bypassed,
    };
    let a = ConfigSnapshot {
        schema_version: 2,
        master: Gain::unity(),
        muted: false,
        app: AppConfig::default(),
        profiles: Vec::new(),
        groups: vec![group_with_dsp("Game", "Out", vec![stage(false)])],
    };
    let b = ConfigSnapshot {
        schema_version: 2,
        master: Gain::unity(),
        muted: false,
        app: AppConfig::default(),
        profiles: Vec::new(),
        groups: vec![group_with_dsp("Game", "Out", vec![stage(true)])],
    };
    let delta = diff(&a, &b);
    assert!(delta.dsp_chains.is_none(), "same spec shape must not trigger a chain rebuild");
    assert_eq!(delta.params.len(), 1);
    assert!(matches!(
        delta.params[0],
        MixerCommand::SetDspBypass { group: GroupId(0), stage: 0, bypassed: true }
    ));
}

#[test]
fn diff_reports_a_set_duck_command_with_the_triggers_resolved_group_id() {
    let a = ConfigSnapshot {
        schema_version: 2,
        master: Gain::unity(),
        muted: false,
        app: AppConfig::default(),
        profiles: Vec::new(),
        groups: vec![
            group("Voice", "Out", 1.0, true),
            group("Music", "Out", 1.0, true),
        ],
    };
    let mut b = a.clone();
    b.groups[1].duck = Some(DuckSpecConfig {
        trigger: "Voice".into(),
        amount_db: number(12.0),
        threshold_db: number(-40.0),
        attack_ms: number(5.0),
        release_ms: number(200.0),
    });
    let delta = diff(&a, &b);
    assert!(!delta.structural);
    assert!(delta.dsp_chains.is_none());
    assert_eq!(delta.params.len(), 1);
    assert!(matches!(
        &delta.params[0],
        MixerCommand::SetDuck { group: GroupId(1), duck: Some(d) } if d.trigger == GroupId(0)
    ));
}

#[test]
fn diff_reports_a_spatial_entry_for_a_spatial_only_change_not_structural() {
    let a = ConfigSnapshot {
        schema_version: 2,
        master: Gain::unity(),
        muted: false,
        app: AppConfig::default(),
        profiles: Vec::new(),
        groups: vec![group("Game", "Out", 1.0, true)],
    };
    let mut b = a.clone();
    b.groups[0].spatial = true;

    let delta = diff(&a, &b);
    assert!(!delta.structural);
    assert!(delta.dsp_chains.is_none());
    assert!(delta.params.is_empty(), "spatial has no direct MixerCommand equivalent");
    let spatial = delta.spatial.expect("expected a spatial delta");
    assert_eq!(spatial, vec![(GroupId(0), true)]);
}

#[test]
fn diff_reports_unchanged_when_spatial_flag_is_the_same() {
    let a = ConfigSnapshot {
        schema_version: 2,
        master: Gain::unity(),
        muted: false,
        app: AppConfig::default(),
        profiles: Vec::new(),
        groups: vec![group("Game", "Out", 1.0, true)],
    };
    let b = a.clone();
    assert!(diff(&a, &b).is_unchanged());
}

#[test]
fn parses_the_spatial_flag_defaulting_to_false() {
    let toml = r#"
        schema_version = 2
        master = 1.0

        [[group]]
        name = "Game"
        output_device = "Out"

        [[group]]
        name = "Music"
        output_device = "Out"
        spatial = true
    "#;
    let snapshot = parse(toml).unwrap();
    assert!(!snapshot.groups[0].spatial);
    assert!(snapshot.groups[1].spatial);
}





/// The configuration file, kept in memory.
struct File(RefCell<String>);

impl File {
    fn with(text: &str) -> File {
        File(RefCell::new(text.to_string()))
    }

    fn text(&self) -> String {
        self.0.borrow().clone()
    }
}

/// A store on a file.
struct OnDisk<'a> {
    file: &'a File,
    store: ConfigStore,
}

/// The digits of a number in the file.
fn spelled(number: Float32) -> String {
    let value = f32::from_bits(number.to_bits()) as f64;
    if value.is_nan() { "nan".to_string() } else { format!("{value:?}") }
}

impl<'a> OnDisk<'a> {
    fn open(file: &'a File) -> Result<OnDisk<'a>, StoreError> {
        let text = file.text();
        let store = ConfigStore::open(&text, parse(&text))?;
        Ok(OnDisk { file, store })
    }

    fn apply(&mut self, edits: &[ConfigEdit]) -> Result<ConfigSnapshot, StoreError> {
        assert!(self.store.takes(&edits.to_vec()));
        let draft = self.store.draft(&edits.to_vec(), &spelled)?;
        let text = draft.text().to_string();
        let parsed = parse(&text);
        if parsed.is_ok() {
            *self.file.0.borrow_mut() = text;
        }
        self.store.apply(draft, parsed, Ok(()))
    }

    fn is_echo(&self, snapshot: &ConfigSnapshot) -> bool {
        self.store.is_echo(snapshot)
    }
}

const BASE: &str = r#"
schema_version = 2
master = 0.8 # master volume

[[group]]
name = "Game"
output_device = "Speakers"
gain = 1.0
follow_master = true
"#;

#[test]
fn open_rejects_malformed_toml_syntax() {
    let file = File::with("this is not [ valid toml");
    assert!(matches!(
        OnDisk::open(&file),
        Err(StoreError::Validation(ConfigError::Parse(_)))
    ));
}

#[test]
fn open_rejects_semantically_invalid_config() {
    let file = File::with("schema_version = 2\nmaster = -1.0\n");
    assert!(matches!(
        OnDisk::open(&file),
        Err(StoreError::Validation(ConfigError::Invalid(_)))
    ));
}

#[test]
fn apply_writes_gain_change_and_preserves_comments_and_formatting() {
    let file = File::with(BASE);
    let mut store = OnDisk::open(&file).unwrap();

    let snapshot = store
        .apply(&[ConfigEdit::SetGroupGain("Game".into(), level(0.5))])
        .unwrap();

    assert_eq!(snapshot.groups[0].gain, level(0.5));
    let on_disk = file.text();
    assert!(on_disk.contains("# master volume"), "comment must survive an edit");
    assert!(on_disk.contains("gain = 0.5"));
}

#[test]
fn apply_rejects_edit_for_an_unknown_group_and_leaves_the_file_untouched() {
    let file = File::with(BASE);
    let mut store = OnDisk::open(&file).unwrap();
    let before = file.text();

    let result = store.apply(&[ConfigEdit::SetGroupGain(
        "Nonexistent".into(),
        level(0.5),
    )]);

    assert!(matches!(result, Err(StoreError::Validation(_))));
    assert_eq!(file.text(), before, "rejected batch must not touch the file");
}

#[test]
fn apply_add_then_remove_group_round_trips() {
    let file = File::with(BASE);
    let mut store = OnDisk::open(&file).unwrap();

    let added = GroupConfig {
        name: "Chat".into(),
        output_device: "Headset".into(),
        gain: Gain::unity(),
        follow_master: true,
        match_rules: vec!["chat.exe".into()],
        dsp: Vec::new(),
        duck: None,
        spatial: false,
        muted: false,
        hotkey_mute: None,
        hotkey_volume_up: None,
        hotkey_volume_down: None,
    };
    let snapshot = store.apply(&[ConfigEdit::AddGroup(added)]).unwrap();
    assert_eq!(snapshot.groups.len(), 2);
    assert_eq!(snapshot.groups[1].name, "Chat");
    assert_eq!(snapshot.groups[1].match_rules, vec!["chat.exe".to_string()]);

    let snapshot = store.apply(&[ConfigEdit::RemoveGroup("Game".into())]).unwrap();
    assert_eq!(snapshot.groups.len(), 1);
    assert_eq!(snapshot.groups[0].name, "Chat");
}


#[test]
fn is_echo_recognizes_only_this_stores_own_last_write() {
    let file = File::with(BASE);
    let mut store = OnDisk::open(&file).unwrap();
    let original = parse(BASE).unwrap();
    assert!(!store.is_echo(&original), "nothing written yet");

    let written = store.apply(&[ConfigEdit::SetMuted(true)]).unwrap();
    assert!(store.is_echo(&written));
    assert!(!store.is_echo(&original));
}

#[test]
fn group_id_for_returns_positional_id_matching_snapshot_order() {
    let snapshot = parse(BASE).unwrap();
    assert_eq!(group_id_for(&snapshot, "Game"), Some(GroupId(0)));
    assert_eq!(group_id_for(&snapshot, "Nonexistent"), None);
}

#[test]
fn add_dsp_stage_then_set_eq_band_and_limiter_ceiling_round_trip() {
    let file = File::with(BASE);
    let mut store = OnDisk::open(&file).unwrap();

    let eq = DspSpec::Eq {
        bands: vec![EqBandSpec {
            freq_hz: number(200.0),
            gain_db: number(3.0),
            q: number(0.7),
        }],
    };
    let limiter = DspSpec::Limiter { ceiling_db: number(-1.0) };
    let snapshot = store
        .apply(&[
            ConfigEdit::AddDspStage("Game".into(), eq),
            ConfigEdit::AddDspStage("Game".into(), limiter),
        ])
        .unwrap();
    assert_eq!(snapshot.groups[0].dsp.len(), 2);

    let snapshot = store
        .apply(&[
            ConfigEdit::SetEqBand(
                "Game".into(),
                0,
                0,
                EqBandSpec {
                    freq_hz: number(500.0),
                    gain_db: number(-2.0),
                    q: number(1.2),
                },
            ),
            ConfigEdit::SetLimiterCeiling("Game".into(), number(-3.0)),
        ])
        .unwrap();

    match &snapshot.groups[0].dsp[0].spec {
        DspSpec::Eq { bands } => {
            assert_eq!(bands[0].freq_hz, number(500.0));
            assert_eq!(bands[0].q, number(1.2));
        }
        _ => panic!("expected the eq stage at index 0"),
    }
    match &snapshot.groups[0].dsp[1].spec {
        DspSpec::Limiter { ceiling_db } => assert_eq!(*ceiling_db, number(-3.0)),
        _ => panic!("expected the limiter stage at index 1"),
    }
}

#[test]
fn set_dsp_bypass_then_remove_dsp_stage_round_trips() {
    let file = File::with(BASE);
    let mut store = OnDisk::open(&file).unwrap();

    store
        .apply(&[ConfigEdit::AddDspStage(
            "Game".into(),
            DspSpec::Limiter { ceiling_db: number(-1.0) },
        )])
        .unwrap();

    let snapshot = store
        .apply(&[ConfigEdit::SetDspBypass("Game".into(), 0, true)])
        .unwrap();
    assert!(snapshot.groups[0].dsp[0].bypassed);

    let snapshot = store
        .apply(&[ConfigEdit::RemoveDspStage("Game".into(), 0)])
        .unwrap();
    assert!(snapshot.groups[0].dsp.is_empty());
}

#[test]
fn set_eq_band_on_a_group_with_no_eq_stage_is_rejected() {
    let file = File::with(BASE);
    let mut store = OnDisk::open(&file).unwrap();

    let result = store.apply(&[ConfigEdit::SetEqBand(
        "Game".into(),
        0,
        0,
        EqBandSpec {
            freq_hz: number(200.0),
            gain_db: number(0.0),
            q: number(0.7),
        },
    )]);
    assert!(matches!(result, Err(StoreError::Validation(_))));
}

#[test]
fn set_eq_band_targets_the_named_stage_not_the_first() {
    let file = File::with(BASE);
    let mut store = OnDisk::open(&file).unwrap();

    let first = DspSpec::Eq { bands: vec![EqBandSpec { freq_hz: number(100.0), gain_db: number(1.0), q: number(1.0) }] };
    let second = DspSpec::Eq { bands: vec![EqBandSpec { freq_hz: number(200.0), gain_db: number(2.0), q: number(1.0) }] };
    store
        .apply(&[
            ConfigEdit::AddDspStage("Game".into(), first),
            ConfigEdit::AddDspStage("Game".into(), second),
        ])
        .unwrap();

    let snapshot = store
        .apply(&[ConfigEdit::SetEqBand(
            "Game".into(),
            1,
            0,
            EqBandSpec { freq_hz: number(9000.0), gain_db: number(9.0), q: number(2.0) },
        )])
        .unwrap();

    match (&snapshot.groups[0].dsp[0].spec, &snapshot.groups[0].dsp[1].spec) {
        (DspSpec::Eq { bands: first_bands }, DspSpec::Eq { bands: second_bands }) => {
            assert_eq!(first_bands[0].freq_hz, number(100.0), "the first EQ stage must be untouched");
            assert_eq!(second_bands[0].freq_hz, number(9000.0), "the second EQ stage must receive the edit");
        }
        other => panic!("expected two Eq stages, got {other:?}"),
    }
}

#[test]
fn set_eq_bands_round_trips_through_toml() {
    let file = File::with(BASE);
    let mut store = OnDisk::open(&file).unwrap();

    store
        .apply(&[ConfigEdit::AddDspStage(
            "Game".into(),
            DspSpec::Eq { bands: vec![EqBandSpec { freq_hz: number(1000.0), gain_db: number(0.0), q: number(0.7) }] },
        )])
        .unwrap();

    let new_bands = vec![
        EqBandSpec { freq_hz: number(100.0), gain_db: number(3.0), q: number(1.0) },
        EqBandSpec { freq_hz: number(1000.0), gain_db: number(-3.0), q: number(1.0) },
        EqBandSpec { freq_hz: number(8000.0), gain_db: number(2.0), q: number(1.0) },
    ];
    let snapshot = store.apply(&[ConfigEdit::SetEqBands("Game".into(), 0, new_bands.clone())]).unwrap();

    match &snapshot.groups[0].dsp[0].spec {
        DspSpec::Eq { bands } => assert_eq!(bands, &new_bands),
        other => panic!("expected an Eq stage, got {other:?}"),
    }
    let on_disk = file.text();
    assert!(on_disk.contains("# master volume"), "comment must survive an edit");
}

const BASE_TWO_GROUPS: &str = r#"
schema_version = 2
master = 0.8

[[group]]
name = "Game"
output_device = "Speakers"

[[group]]
name = "Voice"
output_device = "Speakers"
"#;

#[test]
fn set_spatial_then_unset_round_trips_and_preserves_comments() {
    let file = File::with(BASE);
    let mut store = OnDisk::open(&file).unwrap();

    let snapshot = store
        .apply(&[ConfigEdit::SetSpatial("Game".into(), true)])
        .unwrap();
    assert!(snapshot.groups[0].spatial);
    let on_disk = file.text();
    assert!(on_disk.contains("# master volume"), "comment must survive an edit");
    assert!(on_disk.contains("spatial = true"));

    let snapshot = store.apply(&[ConfigEdit::SetSpatial("Game".into(), false)]).unwrap();
    assert!(!snapshot.groups[0].spatial);
}

#[test]
fn set_group_mute_then_unset_round_trips_through_toml() {
    let file = File::with(BASE);
    let mut store = OnDisk::open(&file).unwrap();

    let snapshot = store
        .apply(&[ConfigEdit::SetGroupMute("Game".into(), true)])
        .unwrap();
    assert!(snapshot.groups[0].muted);
    let on_disk = file.text();
    assert!(on_disk.contains("# master volume"), "comment must survive an edit");
    assert!(on_disk.contains("muted = true"));

    let snapshot = store.apply(&[ConfigEdit::SetGroupMute("Game".into(), false)]).unwrap();
    assert!(!snapshot.groups[0].muted);
}

#[test]
fn set_autostart_round_trips_against_an_existing_app_table() {
    let file = File::with("schema_version = 2\nmaster = 1.0\n\n[app]\nautostart = false\n",
    );
    let mut store = OnDisk::open(&file).unwrap();

    let snapshot = store.apply(&[ConfigEdit::SetAutostart(true)]).unwrap();
    assert!(snapshot.app.autostart);

    let snapshot = store.apply(&[ConfigEdit::SetAutostart(false)]).unwrap();
    assert!(!snapshot.app.autostart);
}

#[test]
fn set_autostart_creates_the_app_table_when_absent() {
    let file = File::with(BASE);
    let mut store = OnDisk::open(&file).unwrap();

    let snapshot = store.apply(&[ConfigEdit::SetAutostart(true)]).unwrap();

    assert!(snapshot.app.autostart);
}

#[test]
fn set_duck_then_clear_duck_round_trips() {
    let file = File::with(BASE_TWO_GROUPS);
    let mut store = OnDisk::open(&file).unwrap();

    let snapshot = store
        .apply(&[ConfigEdit::SetDuck(
            "Game".into(),
            Some(DuckSpecConfig {
                trigger: "Voice".into(),
                amount_db: number(6.0),
                threshold_db: number(-40.0),
                attack_ms: number(5.0),
                release_ms: number(200.0),
            }),
        )])
        .unwrap();
    let duck = snapshot.groups[0].duck.as_ref().expect("duck should be set");
    assert_eq!(duck.trigger, "Voice");

    let snapshot = store.apply(&[ConfigEdit::SetDuck("Game".into(), None)]).unwrap();
    assert!(snapshot.groups[0].duck.is_none());
}

#[test]
fn set_eq_band_against_a_hand_written_inline_array_bands_shape_errors_not_panics() {
    let file = File::with(r#"
schema_version = 2
master = 1.0

[[group]]
name = "Game"
output_device = "Out"

[[group.dsp]]
type = "eq"
bands = [{ freq_hz = 200.0, gain_db = 3.0, q = 0.7 }]
"#,
    );
    let mut store = OnDisk::open(&file).unwrap();
    let result = store.apply(&[ConfigEdit::SetEqBand(
        "Game".into(),
        0,
        0,
        EqBandSpec {
            freq_hz: number(500.0),
            gain_db: number(1.0),
            q: number(1.0),
        },
    )]);
    assert!(matches!(result, Err(StoreError::Validation(_))));
}

#[test]
fn add_dsp_stage_against_a_hand_written_inline_array_dsp_shape_errors_not_panics() {
    let file = File::with(r#"
schema_version = 2
master = 1.0

[[group]]
name = "Game"
output_device = "Out"
dsp = [{ type = "limiter", ceiling_db = -1.0 }]
"#,
    );
    let mut store = OnDisk::open(&file).unwrap();
    let result = store.apply(&[ConfigEdit::AddDspStage(
        "Game".into(),
        DspSpec::Limiter { ceiling_db: number(-2.0) },
    )]);
    assert!(matches!(result, Err(StoreError::Validation(_))));
}

#[test]
fn set_dsp_chain_replaces_the_whole_chain() {
    let file = File::with(BASE);
    let mut store = OnDisk::open(&file).unwrap();

    store
        .apply(&[ConfigEdit::AddDspStage(
            "Game".into(),
            DspSpec::Limiter { ceiling_db: number(-1.0) },
        )])
        .unwrap();

    let new_chain = vec![DspStageConfig {
        spec: DspSpec::Eq { bands: vec![EqBandSpec { freq_hz: number(500.0), gain_db: number(2.0), q: number(1.0) }] },
        bypassed: true,
    }];
    let snapshot = store.apply(&[ConfigEdit::SetDspChain("Game".into(), new_chain)]).unwrap();

    assert_eq!(snapshot.groups[0].dsp.len(), 1, "old limiter stage replaced, not appended to");
    match &snapshot.groups[0].dsp[0].spec {
        DspSpec::Eq { bands } => assert_eq!(bands[0].freq_hz, number(500.0)),
        other => panic!("expected the replacement Eq stage, got {other:?}"),
    }
    assert!(snapshot.groups[0].dsp[0].bypassed);
}

fn sample_profile(name: &str) -> ProfileConfig {
    ProfileConfig {
        name: name.into(),
        hotkey: Some(HotkeyChord::parse("Ctrl+Alt+1").unwrap()),
        master: level(0.8),
        muted: false,
        groups: vec![ProfileGroupConfig {
            name: "Game".into(),
            gain: level(0.5),
            follow_master: true,
            output_device: "Headphones".into(),
            dsp: Vec::new(),
            duck: None,
            spatial: true,
            muted: false,
        }],
    }
}

#[test]
fn set_profile_round_trips_through_toml() {
    let file = File::with(BASE);
    let mut store = OnDisk::open(&file).unwrap();

    let snapshot = store.apply(&[ConfigEdit::SetProfile(sample_profile("Gaming"))]).unwrap();

    assert_eq!(snapshot.profiles.len(), 1);
    let p = &snapshot.profiles[0];
    assert_eq!(p.name, "Gaming");
    assert_eq!(p.hotkey, Some(HotkeyChord::parse("Ctrl+Alt+1").unwrap()));
    assert_eq!(p.master, level(0.8));
    assert_eq!(p.groups[0].output_device, "Headphones");
    assert!(p.groups[0].spatial);

    // Re-applying with the same name upserts in place, not a duplicate.
    let mut updated = sample_profile("Gaming");
    updated.master = Gain::unity();
    let snapshot = store.apply(&[ConfigEdit::SetProfile(updated)]).unwrap();
    assert_eq!(snapshot.profiles.len(), 1, "SetProfile upserts by name");
    assert_eq!(snapshot.profiles[0].master, Gain::unity());
}

#[test]
fn remove_profile_leaves_other_profiles_intact() {
    let file = File::with(BASE);
    let mut store = OnDisk::open(&file).unwrap();

    store
        .apply(&[
            ConfigEdit::SetProfile(sample_profile("Gaming")),
            ConfigEdit::SetProfile(sample_profile("Music")),
        ])
        .unwrap();

    let snapshot = store.apply(&[ConfigEdit::RemoveProfile("Gaming".into())]).unwrap();
    assert_eq!(snapshot.profiles.len(), 1);
    assert_eq!(snapshot.profiles[0].name, "Music");
}

#[test]
fn remove_profile_for_an_unknown_name_is_rejected() {
    let file = File::with(BASE);
    let mut store = OnDisk::open(&file).unwrap();

    let result = store.apply(&[ConfigEdit::RemoveProfile("Nonexistent".into())]);
    assert!(matches!(result, Err(StoreError::Validation(_))));
}

#[test]
fn set_active_profile_then_clear_round_trips() {
    let file = File::with(BASE);
    let mut store = OnDisk::open(&file).unwrap();

    let snapshot = store
        .apply(&[ConfigEdit::SetActiveProfile(Some("Gaming".into()))])
        .unwrap();
    assert_eq!(snapshot.app.active_profile, Some("Gaming".to_string()));

    let snapshot = store.apply(&[ConfigEdit::SetActiveProfile(None)]).unwrap();
    assert_eq!(snapshot.app.active_profile, None);
}

#[test]
fn every_config_edit_variant_has_an_edit_path() {
    let structural = [
        ConfigEdit::SetGroupOutput("g".into(), "d".into()),
        ConfigEdit::AddGroup(GroupConfig {
            name: "g".into(),
            output_device: "d".into(),
            gain: Gain::unity(),
            follow_master: true,
            match_rules: vec![],
            dsp: Vec::new(),
            duck: None,
            spatial: false,
            muted: false,
            hotkey_mute: None,
            hotkey_volume_up: None,
            hotkey_volume_down: None,
        }),
        ConfigEdit::RemoveGroup("g".into()),
    ];
    for edit in &structural {
        assert_eq!(edit_path(edit), EditPath::Rebuild);
    }

    assert_eq!(edit_path(&ConfigEdit::SetSpatial("g".into(), true)), EditPath::Spatial);

    let dsp_chain = [
        ConfigEdit::AddDspStage("g".into(), DspSpec::Limiter { ceiling_db: number(-1.0) }),
        ConfigEdit::RemoveDspStage("g".into(), 0),
        ConfigEdit::SetEqBands("g".into(), 0, vec![]),
        ConfigEdit::SetDspChain("g".into(), vec![]),
    ];
    for edit in &dsp_chain {
        assert_eq!(edit_path(edit), EditPath::DspChain);
    }

    let param = [
        ConfigEdit::SetGroupGain("g".into(), Gain::unity()),
        ConfigEdit::SetMaster(Gain::unity()),
        ConfigEdit::SetMuted(true),
        ConfigEdit::SetProfile(sample_profile("Gaming")),
        ConfigEdit::RemoveProfile("g".into()),
        ConfigEdit::SetActiveProfile(None),
    ];
    for edit in &param {
        assert_eq!(edit_path(edit), EditPath::Param);
    }
}

fn refusal_text(result: Result<ConfigSnapshot, ConfigError>) -> String {
    match result {
        Err(ConfigError::Invalid(Refusal::Message(text))) => text,
        other => panic!("expected a message, got {other:?}"),
    }
}

fn store_refusal(result: Result<ConfigSnapshot, StoreError>) -> String {
    match result {
        Err(StoreError::Validation(e)) => refusal_text(Err(e)),
        other => panic!("expected a refusal, got {other:?}"),
    }
}

#[test]
fn refusals_of_a_configuration_say_what_is_wrong() {
    assert_eq!(
        refusal_text(parse("schema_version = 99\n")),
        "schema_version 99 is newer than supported 2"
    );
    assert_eq!(
        refusal_text(parse("[app]\ntheme = \"pur\\\"ple\"\n")),
        "unrecognised theme \"pur\\\"ple\" (expected \"dark\", \"light\", or \"system\")"
    );
    assert_eq!(
        refusal_text(parse("[app]\naccent = \"pink\"\n")),
        "unrecognised accent \"pink\" (expected \"brand\", \"teal\", \"amber\", \"violet\", or \"slate\")"
    );
    assert!(matches!(
        parse("master = -1.0\n"),
        Err(ConfigError::Invalid(Refusal::Gain(g))) if g == number(-1.0)
    ));
    assert!(matches!(
        parse("master = nan\n"),
        Err(ConfigError::Invalid(Refusal::Gain(g))) if g.is_nan()
    ));
}

const DUCK: &str = "amount_db = 6.0\nthreshold_db = -40.0\nattack_ms = 5.0\nrelease_ms = 200.0\n";

fn ducking(pairs: &[(&str, Option<&str>)]) -> String {
    let mut text = String::new();
    for (name, trigger) in pairs {
        text.push_str(&format!("[[group]]\nname = \"{name}\"\noutput_device = \"Out\"\n"));
        if let Some(t) = trigger {
            text.push_str(&format!("[group.duck]\ntrigger = \"{t}\"\n{DUCK}"));
        }
    }
    text
}

#[test]
fn ducking_must_name_groups_and_lead_nowhere_back() {
    assert!(parse(&ducking(&[("A", Some("B")), ("B", Some("C")), ("C", None)])).is_ok());
    assert_eq!(
        refusal_text(parse(&ducking(&[("A", Some("X"))]))),
        "group 'A': duck trigger 'X' not found"
    );
    assert_eq!(
        refusal_text(parse(&ducking(&[("A", Some("A"))]))),
        "duck cycle detected involving group 'A'"
    );
    // The chain from the first group runs into a cycle that it is not on.
    assert_eq!(
        refusal_text(parse(&ducking(&[("A", Some("B")), ("B", Some("C")), ("C", Some("B"))]))),
        "duck cycle detected involving group 'B'"
    );
}

#[test]
fn the_template_is_a_valid_configuration() {
    let template = default_config_template();
    assert!(template.starts_with("# Splitstream configuration.\n"));
    let snapshot = parse(&template).unwrap();
    assert_eq!(snapshot.schema_version, 2);
    assert_eq!(snapshot.master, Gain::unity());
    assert!(!snapshot.muted);
    assert!(snapshot.groups.is_empty());
    assert!(snapshot.profiles.is_empty());
    assert!(snapshot.app.autostart);
    assert_eq!(snapshot.app.sink_device, None);
    assert!(template.contains(&format!("\nschema_version = {SUPPORTED_SCHEMA_VERSION}\nmaster = 1.0\nmuted = false\n")));
    assert!(template.ends_with("\n[app]\nautostart = true\n"));
}

#[test]
fn refusals_of_an_edit_say_what_is_wrong() {
    let file = File::with(BASE);
    let mut store = OnDisk::open(&file).unwrap();
    let band = EqBandSpec { freq_hz: number(100.0), gain_db: number(1.0), q: number(1.0) };
    assert_eq!(
        store_refusal(store.apply(&[ConfigEdit::RemoveGroup("No\"pe".into())])),
        "no group named \"No\\\"pe\""
    );
    assert_eq!(
        store_refusal(store.apply(&[ConfigEdit::RemoveProfile("Nope".into())])),
        "no profile named \"Nope\""
    );
    assert_eq!(
        store_refusal(store.apply(&[ConfigEdit::SetDspBypass("Game".into(), 12, true)])),
        "group \"Game\" has no dsp stage at index 12"
    );
    assert_eq!(
        store_refusal(store.apply(&[ConfigEdit::SetLimiterCeiling("Game".into(), number(-1.0))])),
        "group \"Game\" has no limiter dsp stage"
    );
    assert_eq!(
        store_refusal(store.apply(&[
            ConfigEdit::AddDspStage("Game".into(), DspSpec::Eq { bands: vec![band] }),
            ConfigEdit::SetEqBand("Game".into(), 0, 1, band),
        ])),
        "group \"Game\"'s eq stage has no band at index 1"
    );
    let inline = File::with("schema_version = 2\napp = { autostart = false }\n");
    let mut store = OnDisk::open(&inline).unwrap();
    assert_eq!(
        store_refusal(store.apply(&[ConfigEdit::SetAutostart(true)])),
        "`app` must be written as a `[app]` table, not an inline table, to support live edits"
    );
}

#[test]
fn a_batch_that_fails_leaves_nothing_behind() {
    let file = File::with(BASE);
    let mut store = OnDisk::open(&file).unwrap();
    let result = store.apply(&[
        ConfigEdit::SetMaster(level(0.25)),
        ConfigEdit::RemoveGroup("Nonexistent".into()),
    ]);
    assert!(result.is_err());
    let snapshot = store.apply(&[ConfigEdit::SetMuted(true)]).unwrap();
    assert_eq!(snapshot.master, level(0.8));
    // A draft that does not read back as a valid configuration is dropped too.
    let result = store.apply(&[
        ConfigEdit::SetMaster(level(0.25)),
        ConfigEdit::SetEqBands("Game".into(), 0, vec![]),
    ]);
    assert!(result.is_err());
    let bad = EqBandSpec { freq_hz: number(100.0), gain_db: number(1.0), q: number(0.0) };
    let result = store.apply(&[
        ConfigEdit::SetMaster(level(0.25)),
        ConfigEdit::AddDspStage("Game".into(), DspSpec::Eq { bands: vec![bad] }),
    ]);
    assert!(matches!(
        result,
        Err(StoreError::Validation(ConfigError::Invalid(Refusal::EqBand { q, .. }))) if q == number(0.0)
    ));
    assert!(file.text().contains("master = 0.8"));
}

#[test]
fn a_write_that_fails_leaves_the_store_as_it_was() {
    let text = "muted = false\n";
    let mut store = ConfigStore::open(text, parse(text)).unwrap();
    let draft = store.draft(&vec![ConfigEdit::SetMuted(true)], &spelled).unwrap();
    assert_eq!(draft.text(), "muted = true\n");
    let read = parse("muted = true\n");
    let result = store.apply(draft, read, Err("disk full".to_string()));
    assert_eq!(result, Err(StoreError::Io("disk full".to_string())));
    assert!(!store.is_echo(&parse("muted = true\n").unwrap()));
    // The next batch starts from what the file still says.
    let draft = store.draft(&vec![ConfigEdit::SetMaster(level(0.5))], &spelled).unwrap();
    assert_eq!(draft.text(), "muted = false\nmaster = 0.5\n");
}

#[test]
fn edits_are_written_where_they_belong() {
    let file = File::with(BASE);
    let mut store = OnDisk::open(&file).unwrap();
    store
        .apply(&[
            ConfigEdit::SetMuted(true),
            ConfigEdit::SetExcluded(vec!["a \"b\".exe".into(), "c.exe".into()]),
            ConfigEdit::AddDspStage("Game".into(), DspSpec::Limiter { ceiling_db: number(-0.5) }),
        ])
        .unwrap();
    assert_eq!(
        file.text(),
        r#"
schema_version = 2
master = 0.8 # master volume
muted = true

[[group]]
name = "Game"
output_device = "Speakers"
gain = 1.0
follow_master = true

[[group.dsp]]
type = "limiter"
ceiling_db = -0.5
bypassed = false

[app]
excluded = ['a "b".exe', "c.exe"]
"#
    );
    store
        .apply(&[
            ConfigEdit::RemoveDspStage("Game".into(), 0),
            ConfigEdit::SetGroupGain("Game".into(), level(0.1)),
        ])
        .unwrap();
    assert_eq!(
        file.text(),
        r#"
schema_version = 2
master = 0.8 # master volume
muted = true

[[group]]
name = "Game"
output_device = "Speakers"
gain = 0.10000000149011612
follow_master = true

[app]
excluded = ['a "b".exe', "c.exe"]
"#
    );
}

#[test]
fn a_profile_that_is_saved_again_stays_in_its_place() {
    let file = File::with("schema_version = 2\n");
    let mut store = OnDisk::open(&file).unwrap();
    let mut first = sample_profile("First");
    store
        .apply(&[
            ConfigEdit::SetProfile(first.clone()),
            ConfigEdit::SetProfile(sample_profile("Second")),
        ])
        .unwrap();
    first.master = level(0.25);
    let snapshot = store.apply(&[ConfigEdit::SetProfile(first.clone())]).unwrap();
    assert_eq!(snapshot.profiles, vec![first, sample_profile("Second")]);
    let snapshot = store.apply(&[ConfigEdit::RemoveProfile("First".into())]).unwrap();
    assert_eq!(snapshot.profiles, vec![sample_profile("Second")]);
}

#[test]
fn digits_that_are_another_number_end_the_batch() {
    let store = ConfigStore::open(BASE, parse(BASE)).unwrap();
    let edits = vec![ConfigEdit::SetMaster(level(0.5))];
    for digits in ["0.25", "1", "half", "\"0.5\"", "", "nan"] {
        let result = store.draft(&edits, &|_: Float32| digits.to_string());
        assert_eq!(
            result.err(),
            Some(StoreError::Validation(ConfigError::Parse(
                "a number was not spelled as one".to_string()
            )))
        );
    }
    // Another spelling of the same number is written as any other.
    let draft = store.draft(&edits, &|_: Float32| "5e-1".to_string()).unwrap();
    assert!(draft.text().contains("master = 0.5\n"));
    // Nothing is spelled where nothing is a number.
    assert!(store.draft(&vec![ConfigEdit::SetMuted(true)], &|_: Float32| String::new()).is_ok());
}

#[test]
fn only_what_an_edit_touches_must_be_a_table() {
    let inline = "schema_version = 2\ngroup = [{ name = \"Game\", output_device = \"Out\" }]\n";
    let store = ConfigStore::open(inline, parse(inline)).unwrap();
    assert!(!store.takes(&vec![ConfigEdit::SetMuted(true), ConfigEdit::RemoveGroup("Game".into())]));
    assert!(!store.takes(&vec![ConfigEdit::SetGroupGain("Game".into(), level(0.5))]));

    let file = File::with(inline);
    let mut store = OnDisk::open(&file).unwrap();
    let snapshot = store
        .apply(&[
            ConfigEdit::SetMuted(true),
            ConfigEdit::SetMaster(level(0.5)),
            ConfigEdit::SetTheme(ThemeChoice::Light),
            ConfigEdit::SetActiveProfile(None),
            ConfigEdit::SetProfile(sample_profile("Night")),
        ])
        .unwrap();
    assert!(snapshot.muted);
    assert_eq!(snapshot.groups.len(), 1);
    assert_eq!(snapshot.profiles, vec![sample_profile("Night")]);
    assert!(file.text().contains("group = [{ name = \"Game\", output_device = \"Out\" }]"));

    let store = ConfigStore::open(BASE, parse(BASE)).unwrap();
    assert!(store.takes(&vec![ConfigEdit::RemoveGroup("Game".into())]));
}

#[test]
fn comments_and_order_survive_edits_everywhere() {
    let text = r#"# At the top.
schema_version = 2 # of the file

# How loud.
master = 0.8
muted = false # for now

# What plays games.
[[group]] # first
# Its name.
name = "Game"
output_device = "Speakers" # left ones
gain = 1.0

[[group]]
name = "Music" # second
output_device = "Out"

# The shell.
[app] # itself
theme = "dark" # at night
# At logon.
autostart = false
# The end.
"#;
    let file = File::with(text);
    let mut store = OnDisk::open(&file).unwrap();
    store
        .apply(&[
            ConfigEdit::SetMaster(level(0.5)),
            ConfigEdit::SetGroupGain("Game".into(), level(0.25)),
            ConfigEdit::SetGroupMute("Music".into(), true),
            ConfigEdit::SetAutostart(true),
            ConfigEdit::SetActiveProfile(None),
        ])
        .unwrap();
    let expected = text
        .replace("master = 0.8", "master = 0.5")
        .replace("gain = 1.0", "gain = 0.25")
        .replace("output_device = \"Out\"\n", "output_device = \"Out\"\nmuted = true\n")
        .replace("autostart = false", "autostart = true");
    assert_eq!(file.text(), expected);
}

#[test]
fn numbers_are_widened_exactly() {
    let values = [
        0.0, -0.0, 0.5, 0.1, -3.75, 1.0, 16777217.0, f32::MAX, f32::MIN_POSITIVE, f32::INFINITY,
        f32::NEG_INFINITY, 1e-40, -1e-45, 1.1754942e-38,
    ];
    for value in values {
        let double = Float64::from_bits((value as f64).to_bits());
        assert!(double.is_for(number(value)), "{value}");
        let next = Float64::from_bits((value as f64).to_bits() ^ 1);
        assert!(!next.is_for(number(value)), "{value}");
        assert!(!double.is_for(number(-value)), "{value}");
        assert!(!double.is_for(number(f32::NAN)), "{value}");
    }
    assert!(Float64::from_bits(f64::NAN.to_bits()).is_for(number(f32::NAN)));
    assert!(!Float64::from_bits(f64::NAN.to_bits()).is_for(number(1.0)));
}

#[test]
fn a_section_holds_each_key_once() {
    let text = |s: &str| Item::Value(Value::Text(s.to_string()));
    let mut section = Section::new();
    section.set("a", text("1"));
    section.set("b", text("2"));
    section.set("a", text("3"));
    assert_eq!(section.text("a"), Some(&"3".to_string()));
    assert_eq!(section.text("b"), Some(&"2".to_string()));
    assert_eq!(section.entries.len(), 2);
    section.remove("a");
    assert!(section.get("a").is_none());
    assert_eq!(section.text("b"), Some(&"2".to_string()));
}

#[test]
fn app_settings_read_back_from_the_file() {
    let file = File::with(BASE);
    let mut store = OnDisk::open(&file).unwrap();
    let snapshot = store
        .apply(&[
            ConfigEdit::SetTheme(ThemeChoice::Dark),
            ConfigEdit::SetAccent(AccentChoice::Violet),
            ConfigEdit::SetExcluded(vec!["a.exe".into(), "b.exe".into()]),
            ConfigEdit::SetSinkDevice(Some("Cable".into())),
            ConfigEdit::SetManageDefault(true),
            ConfigEdit::SetPreviousDefault(Some("Speakers".into())),
            ConfigEdit::SetVolumeBind(Some("Game".into())),
            ConfigEdit::SetFollowMaster("Game".into(), false),
            ConfigEdit::SetGroupOutput("Game".into(), "Headset".into()),
            ConfigEdit::SetRules("Game".into(), vec!["game*.exe".into()]),
        ])
        .unwrap();
    assert_eq!(snapshot.app.theme, ThemeChoice::Dark);
    assert_eq!(snapshot.app.accent, AccentChoice::Violet);
    assert_eq!(snapshot.app.excluded, vec!["a.exe".to_string(), "b.exe".to_string()]);
    assert_eq!(snapshot.app.sink_device, Some("Cable".to_string()));
    assert!(snapshot.app.manage_default);
    assert_eq!(snapshot.app.previous_default, Some("Speakers".to_string()));
    assert_eq!(snapshot.app.volume_bind, Some("Game".to_string()));
    assert!(!snapshot.groups[0].follow_master);
    assert_eq!(snapshot.groups[0].output_device, "Headset");
    assert_eq!(snapshot.groups[0].match_rules, vec!["game*.exe".to_string()]);
    let snapshot = store
        .apply(&[
            ConfigEdit::SetSinkDevice(None),
            ConfigEdit::SetPreviousDefault(None),
            ConfigEdit::SetVolumeBind(None),
        ])
        .unwrap();
    assert_eq!(snapshot.app.sink_device, None);
    assert_eq!(snapshot.app.previous_default, None);
    assert_eq!(snapshot.app.volume_bind, None);
    assert!(snapshot.app.manage_default);
}

#[test]
fn a_whole_group_reads_back_from_the_file() {
    let file = File::with("schema_version = 2\n");
    let mut store = OnDisk::open(&file).unwrap();
    let voice = group("Voice", "Out", 0.5, false);
    let mut music = group("Music", "Out", 0.8, true);
    music.match_rules = vec!["music.exe".into()];
    music.dsp = vec![
        DspStageConfig {
            spec: DspSpec::Eq {
                bands: vec![EqBandSpec { freq_hz: number(80.0), gain_db: number(-2.5), q: number(0.7) }],
            },
            bypassed: true,
        },
        DspStageConfig { spec: DspSpec::Limiter { ceiling_db: number(-1.0) }, bypassed: false },
    ];
    music.duck = Some(DuckSpecConfig {
        trigger: "Voice".into(),
        amount_db: number(12.0),
        threshold_db: number(-40.0),
        attack_ms: number(5.0),
        release_ms: number(200.0),
    });
    music.spatial = true;
    music.muted = true;
    music.hotkey_mute = Some(HotkeyChord::parse("Ctrl+Alt+1").unwrap());
    let snapshot = store
        .apply(&[ConfigEdit::AddGroup(voice.clone()), ConfigEdit::AddGroup(music.clone())])
        .unwrap();
    assert_eq!(snapshot.groups, vec![voice, music]);
    assert!(diff(&snapshot, &parse(&file.text()).unwrap()).is_unchanged());
}

#[test]
fn a_changed_master_is_a_param() {
    let a = parse(BASE).unwrap();
    let mut b = a.clone();
    b.master = level(0.5);
    b.groups[0].follow_master = false;
    let delta = diff(&a, &b);
    assert!(!delta.structural);
    assert!(delta.params.contains(&MixerCommand::SetMaster(level(0.5))));
    assert!(delta.params.contains(&MixerCommand::SetFollowMaster(GroupId(0), false)));
    assert_eq!(delta.params.len(), 2);
}

#[test]
fn a_changed_mute_alone_is_a_change() {
    let a = parse(BASE).unwrap();
    let mut b = a.clone();
    b.muted = !a.muted;
    let delta = diff(&a, &b);
    assert!(!delta.is_unchanged());
    assert_eq!(delta.params, vec![MixerCommand::SetMuted(b.muted)]);
    b.master = level(0.5);
    let delta = diff(&a, &b);
    assert_eq!(delta.params, vec![MixerCommand::SetMaster(level(0.5)), MixerCommand::SetMuted(b.muted)]);
    assert!(diff(&b, &b).is_unchanged());
}

#[test]
fn excluded_apps_are_reported_when_they_change() {
    let a = parse(BASE).unwrap();
    let mut b = a.clone();
    b.app.excluded = vec!["game.exe".into()];
    let delta = diff(&a, &b);
    assert_eq!(delta.excluded, Some(vec!["game.exe".to_string()]));
    assert!(!delta.is_unchanged());
}

#[test]
fn chords_are_written_in_one_order_and_read_in_any() {
    let chord = HotkeyChord::parse("Shift+Ctrl+A").unwrap();
    assert_eq!(
        chord,
        HotkeyChord { ctrl: true, alt: false, shift: true, key: HotkeyKey::Char('A') }
    );
    assert_eq!(chord.to_text(), "Ctrl+Shift+A");
    assert_eq!(HotkeyChord::parse(&chord.to_text()), Ok(chord));
    for text in ["Ctrl+Alt+Space", "Ctrl+Up", "Alt+Down", "Ctrl+Alt+Shift+9"] {
        let chord = HotkeyChord::parse(text).unwrap();
        assert_eq!(chord.to_text(), text);
    }
    assert!(HotkeyChord::parse("NotAChord").is_err());
    assert!(HotkeyChord::parse("").is_err());
    assert!(HotkeyChord::parse("Ctrl+a").is_err());
    assert_eq!(HotkeyChord::parse("Ctrl+"), Err("invalid hotkey chord \"Ctrl+\"".to_string()));
}
