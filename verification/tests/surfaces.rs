use global_hotkey::hotkey::{Code, HotKey, Modifiers};
use splitstream::action::{describe_notice, evt_is_silent, EngineEvent, EventPump, ShellAction};
use splitstream::chord::HotkeyChord;
use splitstream::dsp::{DspSpec, EqBandSpec};
use splitstream::edit::ConfigEdit;
use splitstream::float::Float32;
use splitstream::hotkeys::{
    build_hotkey_bindings, combo_id, hotkey_heard, key_code, registrable, to_global_hotkey,
    to_shell_action, HotKeyState, HotkeyAction, KeyCode,
};
use splitstream::chord::HotkeyKey;
use splitstream::icons::{IconAnswer, IconCache};
use splitstream::lifecycle::{fatal_text, is_cleanup, launch, shutdown_order, socket_name, Launch, Part, APP_ID};
use splitstream::meter::{peak_for, MeterLevel};
use splitstream::model::{
    AccentChoice, AppConfig, ConfigSnapshot, DuckSpecConfig, GroupConfig, ProfileConfig, ThemeChoice,
};
use splitstream::sample::{Gain, GroupId, OutputId};
use splitstream::settings::{
    GroupGesture, LevelText, MAX_COLUMN_WIDTH_BITS, MAX_FADER_HEIGHT_BITS, MIN_COLUMN_WIDTH_BITS, MIN_FADER_HEIGHT_BITS, Page, Screen, column_width, create_group, fader_height, finish_onboarding, group_gesture, level_text, master_fader, master_mute, offered_device, output_label, page, rules_text, screen_after,
};
use splitstream::shell::VolumeTarget;
use splitstream::theme::{
    Rgb, Surface, ThemePreference, accent, brand_icon_rgba, meter_color, semantic, text_on_accent, theme_preference, tray_icon_is_due,
};
use splitstream::tray::{build_menu, build_tray_model};
use splitstream::watch::{Debounce, WatchAction, WatchEvent, DEBOUNCE_MS, IDLE_POLL_MS};

fn number(value: f32) -> Float32 {
    Float32::from_bits(value.to_bits())
}

fn group(name: &str) -> GroupConfig {
    GroupConfig {
        name: name.into(),
        output_device: "Out".into(),
        gain: Gain::unity(),
        follow_master: true,
        match_rules: vec![],
        dsp: Vec::new(),
        duck: None,
        spatial: false,
        muted: false,
        hotkey_mute: None,
        hotkey_volume_up: None,
        hotkey_volume_down: None,
    }
}

fn snapshot(groups: Vec<GroupConfig>) -> ConfigSnapshot {
    ConfigSnapshot {
        schema_version: 2,
        master: Gain::unity(),
        muted: false,
        groups,
        app: AppConfig::default(),
        profiles: Vec::new(),
    }
}

#[test]
fn every_binding_but_push_to_mute_ignores_released() {
    for action in [
        HotkeyAction::ToggleMasterMute,
        HotkeyAction::ToggleGroupMute("Game".into()),
        HotkeyAction::ApplyProfile("Gaming".into()),
        HotkeyAction::VolumeUp(VolumeTarget::Master),
        HotkeyAction::VolumeDown(VolumeTarget::Group("Game".into())),
    ] {
        assert!(to_shell_action(&action, HotKeyState::Released).is_none());
    }
}

#[test]
fn push_to_mute_fires_on_both_pressed_and_released() {
    assert!(matches!(
        to_shell_action(&HotkeyAction::PushToMuteMaster, HotKeyState::Pressed),
        Some(ShellAction::PushToMute(true))
    ));
    assert!(matches!(
        to_shell_action(&HotkeyAction::PushToMuteMaster, HotKeyState::Released),
        Some(ShellAction::PushToMute(false))
    ));
}

#[test]
fn volume_up_and_down_step_in_opposite_directions() {
    let up = to_shell_action(&HotkeyAction::VolumeUp(VolumeTarget::Master), HotKeyState::Pressed);
    let down = to_shell_action(&HotkeyAction::VolumeDown(VolumeTarget::Master), HotKeyState::Pressed);
    match (up, down) {
        (
            Some(ShellAction::VolumeStep { delta_db: up_db, .. }),
            Some(ShellAction::VolumeStep { delta_db: down_db, .. }),
        ) => {
            assert_eq!(up_db, number(3.0));
            assert_eq!(down_db, number(-3.0));
        }
        other => panic!("expected two VolumeStep actions, got {other:?}"),
    }
}

#[test]
fn toggle_group_mute_and_apply_profile_carry_the_right_name() {
    assert!(matches!(
        to_shell_action(&HotkeyAction::ToggleGroupMute("Game".into()), HotKeyState::Pressed),
        Some(ShellAction::ToggleGroupMute(name)) if name == "Game"
    ));
    assert!(matches!(
        to_shell_action(&HotkeyAction::ApplyProfile("Gaming".into()), HotKeyState::Pressed),
        Some(ShellAction::ApplyProfile(name)) if name == "Gaming"
    ));
}

#[test]
fn every_key_of_a_chord_has_a_code() {
    assert_eq!(key_code(HotkeyKey::Char('A')), Some(KeyCode::Letter(0)));
    assert_eq!(key_code(HotkeyKey::Char('9')), Some(KeyCode::Digit(9)));
    assert_eq!(key_code(HotkeyKey::Up), Some(KeyCode::ArrowUp));
    assert_eq!(key_code(HotkeyKey::Char('%')), None);
}

#[test]
fn chords_are_known_by_the_number_of_their_hotkey() {
    for (text, mods, code) in [
        ("Ctrl+Alt+M", Modifiers::CONTROL | Modifiers::ALT, Code::KeyM),
        ("Shift+Space", Modifiers::SHIFT, Code::Space),
        ("Ctrl+Up", Modifiers::CONTROL, Code::ArrowUp),
        ("Alt+Shift+Down", Modifiers::ALT | Modifiers::SHIFT, Code::ArrowDown),
        ("7", Modifiers::empty(), Code::Digit7),
        ("Ctrl+Z", Modifiers::CONTROL, Code::KeyZ),
    ] {
        let combo = to_global_hotkey(HotkeyChord::parse(text).unwrap()).unwrap();
        assert_eq!(combo_id(combo), HotKey::new(Some(mods), code).id(), "{text}");
    }
}

#[test]
fn bindings_are_registered_and_heard_by_number() {
    let mut s = snapshot(vec![group("Game")]);
    s.app.hotkeys.mute_master = Some(HotkeyChord::parse("Ctrl+Alt+M").unwrap());
    s.app.hotkeys.push_to_mute = Some(HotkeyChord::parse("Ctrl+Alt+Space").unwrap());
    s.groups[0].hotkey_mute = Some(HotkeyChord::parse("Ctrl+Alt+1").unwrap());
    s.profiles.push(ProfileConfig {
        name: "Gaming".into(),
        hotkey: Some(HotkeyChord::parse("Ctrl+Shift+G").unwrap()),
        master: Gain::unity(),
        muted: false,
        groups: Vec::new(),
    });
    let bindings = build_hotkey_bindings(&s);
    assert_eq!(bindings.len(), 4);
    let entries = registrable(&bindings);
    assert_eq!(entries.len(), 4);
    let id = HotKey::new(Some(Modifiers::CONTROL | Modifiers::ALT), Code::Digit1).id();
    assert!(matches!(
        hotkey_heard(&entries, id, HotKeyState::Pressed),
        Some(ShellAction::ToggleGroupMute(name)) if name == "Game"
    ));
    assert!(hotkey_heard(&entries, id, HotKeyState::Released).is_none());
    assert!(hotkey_heard(&entries, id + 1, HotKeyState::Pressed).is_none());
}

#[test]
fn routing_degraded_event_sets_the_ui_flag() {
    assert!(EventPump::marks_degraded(&EngineEvent::RoutingDegraded { reason: "test".into() }));
    assert!(!EventPump::marks_degraded(&EngineEvent::DeviceLost { groups: vec![GroupId(0)] }));
}

#[test]
fn device_events_ask_for_a_fresh_look() {
    assert!(matches!(
        EventPump::action_for(&EngineEvent::DefaultDeviceChanged { id: "x".into() }),
        Some(ShellAction::DefaultDeviceChanged)
    ));
    assert!(matches!(
        EventPump::action_for(&EngineEvent::DeviceRemoved { id: "x".into() }),
        Some(ShellAction::DevicesChanged)
    ));
    assert!(EventPump::action_for(&EngineEvent::Recovered { on: "Speakers".into() }).is_none());
}

#[test]
fn notices_name_what_happened() {
    let fell_back = EngineEvent::FallbackApplied { to: "Speakers".into() };
    assert_eq!(describe_notice(&fell_back), "Splitstream — fell back to Speakers");
    assert!(!evt_is_silent(&fell_back));
    let changed = EngineEvent::DefaultDeviceChanged { id: "x".into() };
    assert_eq!(describe_notice(&changed), "");
    assert!(evt_is_silent(&changed));
}

#[test]
fn an_empty_process_path_is_never_enqueued() {
    let mut cache = IconCache::new();

    let answer = cache.texture("");

    assert_eq!(answer, IconAnswer::Fallback);
    assert_eq!(cache.len(), 0, "an empty path must not create a cache entry or enqueue a request");
}

#[test]
fn a_failed_extraction_is_never_retried() {
    let mut cache = IconCache::new();
    let path = r"C:\some\path.exe";
    cache.texture(path);
    cache.resolved(path, None);

    assert_eq!(cache.texture(path), IconAnswer::Fallback);
    assert_eq!(
        cache.texture(path),
        IconAnswer::Fallback,
        "a failed path must stay failed, never enqueued again"
    );
    assert_eq!(cache.len(), 1);
}

#[test]
fn a_pending_path_is_not_enqueued_twice() {
    let mut cache = IconCache::new();
    let path = r"C:\some\path.exe";

    assert_eq!(cache.texture(path), IconAnswer::Extract);
    assert_eq!(cache.texture(path), IconAnswer::Fallback);

    assert_eq!(cache.len(), 1, "a second call on the same still-pending path must not add a second entry");
}

#[test]
fn an_extracted_icon_is_drawn() {
    let mut cache = IconCache::new();
    cache.texture("a.exe");
    cache.texture("b.exe");
    cache.resolved("b.exe", Some(7));
    assert_eq!(cache.texture("b.exe"), IconAnswer::Draw(7));
    assert_eq!(cache.texture("a.exe"), IconAnswer::Fallback);
}

const MIN_CONTRAST: f64 = 3.0;

const DARK_BG: Rgb = Rgb { r: 27, g: 27, b: 27 };

const LIGHT_BG: Rgb = Rgb { r: 248, g: 248, b: 248 };

fn channel(c: u8) -> f64 {
    let c = f64::from(c) / 255.0;
    if c <= 0.039_28 {
        c / 12.92
    } else {
        ((c + 0.055) / 1.055).powf(2.4)
    }
}

fn relative_luminance(c: Rgb) -> f64 {
    0.2126 * channel(c.r) + 0.7152 * channel(c.g) + 0.0722 * channel(c.b)
}

fn contrast_ratio(a: Rgb, b: Rgb) -> f64 {
    let (la, lb) = (relative_luminance(a), relative_luminance(b));
    let (hi, lo) = if la > lb { (la, lb) } else { (lb, la) };
    (hi + 0.05) / (lo + 0.05)
}

#[test]
fn contrast_ratio_of_black_on_white_is_twenty_one() {
    let ratio = contrast_ratio(Rgb { r: 0, g: 0, b: 0 }, Rgb { r: 255, g: 255, b: 255 });
    assert!((ratio - 21.0).abs() < 1e-9, "expected 21.0, got {ratio}");
}

#[test]
fn every_accent_meets_minimum_contrast_on_both_palettes() {
    for choice in [
        AccentChoice::Brand,
        AccentChoice::Teal,
        AccentChoice::Amber,
        AccentChoice::Violet,
        AccentChoice::Slate,
    ] {
        let a = accent(choice);
        let dark_ratio = contrast_ratio(a.dark, DARK_BG);
        assert!(
            dark_ratio >= MIN_CONTRAST,
            "{choice:?} dark variant contrast {dark_ratio} below minimum {MIN_CONTRAST}"
        );
        let light_ratio = contrast_ratio(a.light, LIGHT_BG);
        assert!(
            light_ratio >= MIN_CONTRAST,
            "{choice:?} light variant contrast {light_ratio} below minimum {MIN_CONTRAST}"
        );
    }
}

#[test]
fn semantic_colours_do_not_vary_with_the_accent() {
    assert_ne!(semantic(Surface::Dark), semantic(Surface::Light));
}

#[test]
fn brand_icon_rgba_returns_size_squared_times_four_bytes() {
    let a = accent(AccentChoice::Brand);
    for size in [1, 16, 32] {
        let bytes = brand_icon_rgba(size, a, Surface::Dark);
        assert_eq!(bytes.len(), (size * size * 4) as usize);
    }
}

#[test]
fn the_brand_mark_is_not_fully_transparent() {
    let a = accent(AccentChoice::Brand);
    let bytes = brand_icon_rgba(16, a, Surface::Dark);
    assert!(bytes.iter().skip(3).step_by(4).any(|&alpha| alpha != 0));
}

#[test]
fn the_brand_mark_differs_between_light_and_dark_surfaces() {
    let a = accent(AccentChoice::Brand);
    let dark = brand_icon_rgba(16, a, Surface::Dark);
    let light = brand_icon_rgba(16, a, Surface::Light);
    assert_ne!(dark, light);
}

#[test]
fn the_mark_is_a_disc_on_nothing() {
    let a = accent(AccentChoice::Brand);
    let bytes = brand_icon_rgba(16, a, Surface::Dark);
    assert_eq!(bytes[3], 0, "the corner is empty");
    let middle = (8 * 16 + 8) * 4;
    assert_eq!(&bytes[middle..middle + 4], &[a.dark.r, a.dark.g, a.dark.b, 255]);
    for y in 0..16 {
        for x in 0..16 {
            let here = bytes[(y * 16 + x) * 4 + 3];
            assert_eq!(here, bytes[(y * 16 + (15 - x)) * 4 + 3]);
            assert_eq!(here, bytes[((15 - y) * 16 + x) * 4 + 3]);
        }
    }
}

#[test]
fn themes_and_text_follow_the_choice() {
    assert_eq!(theme_preference(ThemeChoice::Dark), ThemePreference::Always(Surface::Dark));
    assert_eq!(theme_preference(ThemeChoice::Light), ThemePreference::Always(Surface::Light));
    assert_eq!(theme_preference(ThemeChoice::System), ThemePreference::System);
    assert_ne!(text_on_accent(Surface::Dark), text_on_accent(Surface::Light));
    assert!(tray_icon_is_due(None, AccentChoice::Brand, Surface::Dark));
    let last = Some((AccentChoice::Brand, Surface::Dark));
    assert!(!tray_icon_is_due(last, AccentChoice::Brand, Surface::Dark));
    assert!(tray_icon_is_due(last, AccentChoice::Brand, Surface::Light));
    assert!(tray_icon_is_due(last, AccentChoice::Teal, Surface::Dark));
}

#[test]
fn peak_for_returns_silent_for_an_unknown_group() {
    let peaks = vec![(GroupId(0), MeterLevel { peak: number(0.5), clipped: false })];
    assert_eq!(peak_for(&peaks, GroupId(9)), MeterLevel::silent());
}

#[test]
fn peak_for_finds_the_matching_group() {
    let peaks = vec![(GroupId(0), MeterLevel { peak: number(0.5), clipped: true })];
    assert_eq!(peak_for(&peaks, GroupId(0)).peak, number(0.5));
}

/// The bottom of the fader's travel, in decibels.
const FADER_MIN_DB: f64 = -60.0;

fn parse_level(text: &str) -> Option<f64> {
    match level_text(text) {
        LevelText::Bottom => Some(FADER_MIN_DB),
        LevelText::Number(n) => n.parse().ok(),
        LevelText::Unread => None,
    }
}

#[test]
fn parse_fader_db_accepts_signed_suffixed_and_infinite_forms() {
    assert_eq!(parse_level("-6"), Some(-6.0));
    assert_eq!(parse_level("-6.0"), Some(-6.0));
    assert_eq!(parse_level("+3"), Some(3.0));
    assert_eq!(parse_level("0"), Some(0.0));
    assert_eq!(parse_level("3 dB"), Some(3.0));
    assert_eq!(parse_level("-inf"), Some(FADER_MIN_DB));
    assert_eq!(parse_level("-∞"), Some(FADER_MIN_DB));
    assert_eq!(parse_level(" -6db "), Some(-6.0));
}

#[test]
fn parse_fader_db_rejects_garbage() {
    assert_eq!(parse_level("loud"), None);
    assert_eq!(parse_level(""), None);
    for text in ["inf", "nan", "+inf", "1e3", "1.2.3", "-", ".", "+-3", "3 4"] {
        assert_eq!(parse_level(text), None, "{text}");
    }
    assert_eq!(parse_level("-.5"), Some(-0.5));
}

#[test]
fn rules_are_offered_as_one_text() {
    let rules = vec!["a.exe".to_string(), "b*.exe".to_string()];
    assert_eq!(rules_text(&rules), "a.exe, b*.exe");
    assert_eq!(rules_text(&Vec::new()), "");
    match group_gesture(GroupGesture::SaveRules(rules_text(&rules)), &snapshot(vec![group("Game")]), 0) {
        ShellAction::EditParams(edits) => {
            assert!(matches!(&edits[0], ConfigEdit::SetRules(name, r) if name == "Game" && *r == rules));
        }
        other => panic!("expected a param edit, got {other:?}"),
    }
}

fn only_edit(action: ShellAction) -> ConfigEdit {
    match action {
        ShellAction::EditParams(mut edits)
        | ShellAction::EditStructure(mut edits)
        | ShellAction::EditDspChains(mut edits)
        | ShellAction::EditSpatial(mut edits) => {
            assert_eq!(edits.len(), 1);
            edits.remove(0)
        }
        other => panic!("expected edits, got {other:?}"),
    }
}

#[test]
fn gestures_on_a_group_ask_for_its_edits() {
    let mut s = snapshot(vec![group("Game"), group("Voice")]);
    s.groups[0].muted = true;
    assert!(matches!(
        only_edit(group_gesture(GroupGesture::Mute, &s, 0)),
        ConfigEdit::SetGroupMute(name, false) if name == "Game"
    ));
    assert!(matches!(
        group_gesture(GroupGesture::Solo { soloed: true }, &s, 1),
        ShellAction::SetSolo(name, false) if name == "Voice"
    ));
    assert!(matches!(
        group_gesture(GroupGesture::Spatial(true), &s, 0),
        ShellAction::EditSpatial(_)
    ));
    assert!(matches!(group_gesture(GroupGesture::Remove, &s, 0), ShellAction::EditStructure(_)));
    assert!(matches!(
        only_edit(group_gesture(GroupGesture::AddLimiter, &s, 0)),
        ConfigEdit::AddDspStage(_, DspSpec::Limiter { ceiling_db }) if ceiling_db == number(-1.0)
    ));
    match only_edit(group_gesture(GroupGesture::AddEq, &s, 0)) {
        ConfigEdit::AddDspStage(_, DspSpec::Eq { bands }) => assert_eq!(
            bands,
            vec![EqBandSpec { freq_hz: number(1000.0), gain_db: number(0.0), q: number(0.7) }]
        ),
        other => panic!("expected an eq stage, got {other:?}"),
    }
    match only_edit(group_gesture(GroupGesture::DuckSwitched(true), &s, 0)) {
        ConfigEdit::SetDuck(name, Some(duck)) => {
            assert_eq!(name, "Game");
            assert_eq!(
                duck,
                DuckSpecConfig {
                    trigger: "Voice".into(),
                    amount_db: number(6.0),
                    threshold_db: number(-30.0),
                    attack_ms: number(5.0),
                    release_ms: number(200.0),
                }
            );
        }
        other => panic!("expected a duck, got {other:?}"),
    }
}

#[test]
fn the_master_strip_asks_for_its_edits() {
    let mut s = snapshot(vec![]);
    s.muted = true;
    assert!(matches!(only_edit(master_mute(&s)), ConfigEdit::SetMuted(false)));
    let gain = Gain::new(number(0.25)).unwrap();
    assert!(matches!(only_edit(master_fader(gain)), ConfigEdit::SetMaster(g) if g == gain));
}

#[test]
fn pages_follow_the_screen_and_the_groups() {
    let s = snapshot(vec![group("Game")]);
    assert_eq!(page(&Screen::Mixer, true, &s), Page::Onboarding);
    assert_eq!(page(&Screen::Mixer, false, &s), Page::Mixer);
    assert_eq!(page(&Screen::GroupSettings("Game".into()), false, &s), Page::Group(0));
    assert_eq!(page(&Screen::GroupSettings("Gone".into()), false, &s), Page::Mixer);
    assert!(matches!(
        screen_after(Screen::GroupSettings("Game".into()), &GroupGesture::Remove),
        Screen::Mixer
    ));
    assert!(matches!(
        screen_after(Screen::GroupSettings("Game".into()), &GroupGesture::Mute),
        Screen::GroupSettings(name) if name == "Game"
    ));
}

#[test]
fn groups_are_created_with_a_name() {
    assert!(create_group("  ", "Speakers").is_none());
    match only_edit(create_group(" Chat ", " Headset ").unwrap()) {
        ConfigEdit::AddGroup(g) => {
            let mut expected = group("Chat");
            expected.output_device = "Headset".into();
            assert_eq!(g, expected);
        }
        other => panic!("expected a new group, got {other:?}"),
    }
}

#[test]
fn onboarding_ends_with_one_group_for_everything() {
    assert_eq!(offered_device("", Some("Speakers")), "Speakers");
    assert_eq!(offered_device("Headset", Some("Speakers")), "Headset");
    assert_eq!(offered_device("", None), "");
    assert!(finish_onboarding("", true).is_none());
    match finish_onboarding("Speakers", true) {
        Some(ShellAction::EditStructure(edits)) => {
            assert_eq!(edits.len(), 2);
            assert!(matches!(
                &edits[0],
                ConfigEdit::AddGroup(g) if g.name == "Main" && g.match_rules == vec!["*".to_string()]
            ));
            assert!(matches!(edits[1], ConfigEdit::SetAutostart(true)));
        }
        other => panic!("expected a structural edit, got {other:?}"),
    }
}

#[test]
fn outputs_are_labelled_by_their_device() {
    let names = vec![(OutputId(0), "Speakers".to_string()), (OutputId(1), "Headset".to_string())];
    assert_eq!(output_label(&names, OutputId(1)), "Headset");
    assert_eq!(output_label(&names, OutputId(9)), "output");
}

#[test]
fn a_burst_of_events_is_read_once() {
    let mut wait = Debounce::new("splitstream.toml".to_string());
    assert_eq!(wait.timeout_ms(), IDLE_POLL_MS);
    assert_eq!(wait.step(&WatchEvent::Touched(vec!["other.toml".into()])), WatchAction::Wait);
    assert_eq!(wait.step(&WatchEvent::Quiet), WatchAction::Wait);
    for _ in 0..3 {
        let names = vec!["splitstream.toml.tmp".into(), "splitstream.toml".into()];
        assert_eq!(wait.step(&WatchEvent::Touched(names)), WatchAction::Wait);
        assert_eq!(wait.timeout_ms(), DEBOUNCE_MS);
    }
    assert_eq!(wait.step(&WatchEvent::Unreadable), WatchAction::Wait);
    assert_eq!(wait.step(&WatchEvent::Quiet), WatchAction::Reload);
    assert_eq!(wait.step(&WatchEvent::Quiet), WatchAction::Wait);
    assert_eq!(wait.step(&WatchEvent::Closed), WatchAction::Stop);
}

#[test]
fn a_launch_is_told_by_its_arguments_and_company() {
    let none: Vec<String> = Vec::new();
    let cleanup = vec!["splitstream.exe".to_string(), "--uninstall-cleanup".to_string()];
    assert_eq!(launch(&none, true), Launch::Primary);
    assert_eq!(launch(&none, false), Launch::Secondary);
    assert_eq!(launch(&cleanup, false), Launch::Cleanup);
    assert!(is_cleanup(&cleanup));
    assert!(!is_cleanup(&none));
    assert_eq!(socket_name(APP_ID), "Splitstream-surface.sock");
    assert_eq!(fatal_text("engine failed", "no device"), "engine failed: no device");
}

#[test]
fn the_event_pump_is_shut_down_after_the_engine() {
    let order = shutdown_order();
    assert_eq!(order[0], Part::Watcher);
    assert_eq!(order[1], Part::DefaultOutput);
    assert_eq!(order[order.len() - 2], Part::Engine);
    assert_eq!(order[order.len() - 1], Part::EventPump);
}

#[test]
fn the_tray_menu_shows_groups_and_profiles() {
    let mut s = snapshot(vec![group("Game"), group("Voice")]);
    s.groups[1].muted = true;
    s.app.active_profile = Some("Gaming".into());
    for name in ["Gaming", "Music"] {
        s.profiles.push(ProfileConfig {
            name: name.into(),
            hotkey: None,
            master: Gain::unity(),
            muted: false,
            groups: Vec::new(),
        });
    }
    let model = build_tray_model(&s);
    assert!(model.same(&build_tray_model(&s)));
    let menu = build_menu(&model);
    assert_eq!(menu.groups.len(), 2);
    assert_eq!(menu.groups[0].label, "Game");
    assert_eq!(menu.groups[1].checked, Some(true));
    assert!(matches!(&menu.groups[1].action, ShellAction::ToggleGroupMute(name) if name == "Voice"));
    assert_eq!(menu.profiles.len(), 2);
    assert_eq!(menu.profiles[0].checked, Some(true));
    assert_eq!(menu.profiles[1].checked, Some(false));
    assert!(matches!(&menu.profiles[1].action, ShellAction::ApplyProfile(name) if name == "Music"));
    assert!(matches!(menu.quit.action, ShellAction::Quit));
    s.groups[0].muted = true;
    assert!(!model.same(&build_tray_model(&s)));
}

fn width(available: f32, columns: usize) -> f32 {
    let r = column_width(bits(available), columns, &|x: Float32, n: usize| {
        bits(f32::from_bits(x.to_bits()) / n as f32)
    });
    f32::from_bits(r.to_bits())
}

fn height(available: f32) -> f32 {
    f32::from_bits(fader_height(bits(available)).to_bits())
}

fn bits(x: f32) -> Float32 {
    Float32::from_bits(x.to_bits())
}

#[test]
fn column_width_divides_available_space_evenly_within_the_clamp_range() {
    assert_eq!(width(600.0, 3), 200.0);
}

#[test]
fn column_width_never_shrinks_below_the_minimum() {
    assert_eq!(width(90.0, 3), f32::from_bits(MIN_COLUMN_WIDTH_BITS));
    assert_eq!(width(90.0, 3), 100.0);
}

#[test]
fn column_width_never_grows_above_the_maximum() {
    assert_eq!(width(1000.0, 1), f32::from_bits(MAX_COLUMN_WIDTH_BITS));
    assert_eq!(width(1000.0, 1), 220.0);
}

#[test]
fn column_width_treats_zero_columns_as_one() {
    assert_eq!(width(150.0, 0), width(150.0, 1));
}

#[test]
fn fader_height_passes_through_within_the_clamp_range() {
    assert_eq!(height(250.0), 250.0);
}

#[test]
fn fader_height_never_shrinks_below_the_minimum() {
    assert_eq!(height(10.0), f32::from_bits(MIN_FADER_HEIGHT_BITS));
    assert_eq!(height(-10.0), 120.0);
}

#[test]
fn fader_height_never_grows_above_the_maximum() {
    assert_eq!(height(10_000.0), f32::from_bits(MAX_FADER_HEIGHT_BITS));
    assert_eq!(height(10_000.0), 400.0);
}

#[test]
fn a_meter_is_hot_above_three_quarters() {
    for surface in [Surface::Dark, Surface::Light] {
        let colours = semantic(surface);
        assert_eq!(meter_color(bits(0.0), surface), colours.meter_ok);
        assert_eq!(meter_color(bits(0.75), surface), colours.meter_ok);
        assert_eq!(meter_color(bits(0.76), surface), colours.meter_hot);
        assert_eq!(meter_color(bits(0.9), surface), colours.meter_hot);
        assert_eq!(meter_color(bits(1.0), surface), colours.meter_clip);
    }
}
