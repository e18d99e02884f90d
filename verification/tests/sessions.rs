use splitstream::edit::ConfigEdit;
use splitstream::model::GroupConfig;
use splitstream::sample::{Gain, GroupId};
use splitstream::sessions::{
    chip_label, clear_solo_on_rebuild, default_duck_trigger, empty_message, empty_reason,
    handle_drop, is_dimmed_by_other_solo, is_exact_match_for, resolve_drag_assign, routed_sessions,
    session_file_name, session_matches, shown_sessions, split_rules, unassigned_sessions,
    EmptyReason, SessionInfo, SoloSet, ZoneKind,
};

fn soloed(names: &[&str]) -> SoloSet {
    let mut set = SoloSet::new();
    for name in names {
        set.set(name, true);
    }
    set
}

fn session(pid: u32, name: &str) -> SessionInfo {
    SessionInfo::of_process(pid, name, name)
}

fn group(name: &str, rules: &[&str]) -> GroupConfig {
    GroupConfig {
        name: name.into(),
        output_device: "Out".into(),
        gain: Gain::unity(),
        follow_master: true,
        match_rules: rules.iter().map(|r| r.to_string()).collect(),
        dsp: Vec::new(),
        duck: None,
        spatial: false,
        muted: false,
        hotkey_mute: None,
        hotkey_volume_up: None,
        hotkey_volume_down: None,
    }
}

#[test]
fn routed_sessions_returns_sorted_sessions_for_the_matching_group() {
    let routes = vec![(GroupId(0), vec![session(1, "b.exe"), session(2, "a.exe")])];
    assert_eq!(
        routed_sessions(&routes, GroupId(0)),
        vec![session(2, "a.exe"), session(1, "b.exe")]
    );
}

#[test]
fn routed_sessions_is_empty_for_a_group_with_no_entry() {
    let routes = vec![(GroupId(0), vec![session(1, "a.exe")])];
    assert!(routed_sessions(&routes, GroupId(1)).is_empty());
}

#[test]
fn sessions_with_one_label_keep_their_order() {
    let routes = vec![(
        GroupId(0),
        vec![session(9, "same.exe"), session(3, "same.exe"), session(5, "a.exe")],
    )];
    let pids: Vec<u32> = routed_sessions(&routes, GroupId(0)).iter().map(|s| s.pid).collect();
    assert_eq!(pids, vec![5, 9, 3]);
}

#[test]
fn unassigned_sessions_excludes_every_pid_present_in_any_route() {
    let all = vec![session(1, "a.exe"), session(2, "b.exe"), session(3, "c.exe")];
    let routes = vec![
        (GroupId(0), vec![session(1, "a.exe")]),
        (GroupId(1), vec![session(3, "c.exe")]),
    ];
    assert_eq!(unassigned_sessions(&all, &routes), vec![session(2, "b.exe")]);
}

#[test]
fn unassigned_sessions_is_everything_when_nothing_is_routed() {
    let all = vec![session(1, "a.exe")];
    assert_eq!(unassigned_sessions(&all, &Vec::new()), all);
}

#[test]
fn split_rules_trims_and_drops_empty_entries() {
    assert_eq!(
        split_rules("game.exe,  *steam*, , music.exe "),
        vec!["game.exe".to_string(), "*steam*".to_string(), "music.exe".to_string()]
    );
}

#[test]
fn split_rules_of_blank_text_is_empty() {
    assert!(split_rules("   ").is_empty());
}

#[test]
fn resolve_drag_assign_onto_a_group_with_no_prior_rule_adds_an_exact_name() {
    let groups = vec![group("Game", &[])];
    let edits = resolve_drag_assign("game.exe", Some("Game"), &groups);
    assert_eq!(edits.len(), 1);
    assert!(matches!(&edits[0], ConfigEdit::SetRules(name, rules)
        if name == "Game" && rules == &vec!["game.exe".to_string()]));
}

#[test]
fn resolve_drag_assign_onto_a_group_that_already_has_it_is_a_no_op() {
    let groups = vec![group("Game", &["game.exe"])];
    let edits = resolve_drag_assign("game.exe", Some("Game"), &groups);
    assert!(edits.is_empty());
}

#[test]
fn resolve_drag_assign_moves_the_session_between_two_groups_in_one_batch() {
    let groups = vec![group("Music", &["game.exe"]), group("Game", &[])];
    let mut edits = resolve_drag_assign("game.exe", Some("Game"), &groups);
    edits.sort_by_key(|e| match e {
        ConfigEdit::SetRules(name, _) => name.clone(),
        _ => String::new(),
    });
    assert_eq!(edits.len(), 2);
    assert!(matches!(&edits[0], ConfigEdit::SetRules(name, rules) if name == "Game" && rules == &vec!["game.exe".to_string()]));
    assert!(matches!(&edits[1], ConfigEdit::SetRules(name, rules) if name == "Music" && rules.is_empty()));
}

#[test]
fn resolve_drag_assign_to_master_unassigns_from_whichever_group_holds_it() {
    let groups = vec![group("Game", &["game.exe"])];
    let edits = resolve_drag_assign("game.exe", None, &groups);
    assert_eq!(edits.len(), 1);
    assert!(matches!(&edits[0], ConfigEdit::SetRules(name, rules) if name == "Game" && rules.is_empty()));
}

#[test]
fn resolve_drag_assign_never_touches_glob_rules() {
    // The session is here through the pattern alone: there is no exact rule to
    // remove, and the pattern stays.
    let groups = vec![group("Game", &["*steam*"])];
    let edits = resolve_drag_assign("steam.exe", None, &groups);
    assert!(edits.is_empty());
}

#[test]
fn resolve_drag_assign_is_case_insensitive() {
    let groups = vec![group("Game", &["GAME.EXE"])];
    let edits = resolve_drag_assign("game.exe", None, &groups);
    assert_eq!(edits.len(), 1);
    assert!(matches!(&edits[0], ConfigEdit::SetRules(_, rules) if rules.is_empty()));
}

#[test]
fn a_second_drop_on_the_same_group_asks_for_nothing() {
    let groups = vec![group("Music", &["game.exe"]), group("Game", &[])];
    let edits = resolve_drag_assign("game.exe", Some("Game"), &groups);
    let mut after = groups;
    for edit in edits {
        if let ConfigEdit::SetRules(name, rules) = edit {
            for g in after.iter_mut() {
                if g.name == name {
                    g.match_rules = rules.clone();
                }
            }
        }
    }
    assert!(resolve_drag_assign("game.exe", Some("Game"), &after).is_empty());
}

#[test]
fn dropping_a_session_that_is_gone_does_nothing() {
    let groups = vec![group("Game", &[])];
    let all = vec![session(1, "game.exe")];
    assert!(handle_drop(2, Some("Game"), &all, &groups).is_empty());
    assert_eq!(handle_drop(1, Some("Game"), &all, &groups).len(), 1);
}

#[test]
fn exact_rules_match_without_case_and_patterns_never_do() {
    assert!(is_exact_match_for("Game.EXE", "game.exe"));
    assert!(!is_exact_match_for("*game*", "*game*"));
    assert!(!is_exact_match_for("game", "game.exe"));
}

#[test]
fn default_duck_trigger_picks_the_first_other_group() {
    let groups = vec![group("Voice", &[]), group("Music", &[])];
    assert_eq!(default_duck_trigger(&groups, "Music"), "Voice");
}

#[test]
fn default_duck_trigger_is_empty_when_no_other_group_exists() {
    let groups = vec![group("Solo", &[])];
    assert_eq!(default_duck_trigger(&groups, "Solo"), "");
}

#[test]
fn chip_label_prefers_display_name_when_present() {
    let mut s = session(1, "game.exe");
    s.display_name = "My Game".into();
    assert_eq!(chip_label(&s), "My Game");
}

#[test]
fn chip_label_falls_back_to_the_process_file_name_when_display_name_is_blank() {
    // The common case: most applications give their session no name.
    let mut s = session(1, "game.exe");
    s.display_name = String::new();
    assert_eq!(chip_label(&s), "game.exe");
}

#[test]
fn chip_label_falls_back_to_the_pid_when_both_are_blank() {
    let s = SessionInfo::of_process(4242, "", "");
    assert_eq!(chip_label(&s), "4242");
}

#[test]
fn a_session_knows_its_process_by_the_last_part_of_the_path() {
    let s = SessionInfo::of_process(1, "/opt/games/play.exe", "");
    assert_eq!(session_file_name(&s), "play.exe");
}

#[test]
fn a_path_with_backslashes_ends_in_the_file_name_on_every_platform() {
    let path = "C:\\Games\\play.exe";
    let s = SessionInfo::of_process(1, path, "");
    let name = session_file_name(&s);
    assert!(name.ends_with("play.exe"));
    assert!(path.ends_with(name.as_str()));
    let mixed = SessionInfo::of_process(1, "C:/Games\\play.exe", "");
    assert!(session_file_name(&mixed).ends_with("play.exe"));
    assert!(!session_file_name(&mixed).contains('/'));
}

#[test]
fn nothing_playing_beats_every_other_empty_reason() {
    assert_eq!(
        empty_reason(ZoneKind::Group, false, true, true),
        EmptyReason::NothingPlaying
    );
}

#[test]
fn an_empty_master_pool_with_sessions_reads_as_all_routed() {
    assert_eq!(
        empty_reason(ZoneKind::Unassigned, true, false, false),
        EmptyReason::AllRouted
    );
}

#[test]
fn an_empty_group_teaches_the_gesture() {
    assert_eq!(empty_reason(ZoneKind::Group, true, false, false), EmptyReason::GroupEmpty);
}

#[test]
fn a_zone_filtered_to_nothing_reports_no_matches() {
    assert_eq!(empty_reason(ZoneKind::Group, true, true, true), EmptyReason::NoMatches);
}

#[test]
fn a_group_that_was_already_empty_does_not_blame_the_search() {
    assert_eq!(empty_reason(ZoneKind::Group, true, false, true), EmptyReason::GroupEmpty);
}

#[test]
fn a_search_without_matches_names_what_was_typed() {
    assert!(empty_message(EmptyReason::NoMatches, "chrome").contains("chrome"));
    assert!(!empty_message(EmptyReason::AllRouted, "chrome").contains("chrome"));
}

#[test]
fn session_matches_finds_the_display_label() {
    let mut s = session(1, "unrelated.exe");
    s.display_name = "Google Chrome".into();
    assert!(session_matches(&s, "chrome"));
}

#[test]
fn session_matches_finds_the_exe_file_name() {
    let s = session(1, "chrome.exe");
    assert!(session_matches(&s, "chrome"));
}

#[test]
fn session_matches_ignores_case() {
    let s = session(1, "Chrome.exe");
    assert!(session_matches(&s, "CHROME"));
}

#[test]
fn an_empty_query_matches_every_session() {
    let s = session(1, "anything.exe");
    assert!(session_matches(&s, ""));
}

#[test]
fn a_query_hides_what_it_does_not_match() {
    let all = vec![session(1, "chrome.exe"), session(2, "game.exe"), session(3, "Chromium")];
    let pids: Vec<u32> = shown_sessions(&all, "CHROM").iter().map(|s| s.pid).collect();
    assert_eq!(pids, vec![1, 3]);
    assert_eq!(shown_sessions(&all, "").len(), 3);
}

#[test]
fn a_bumped_rebuild_generation_clears_the_solo_set() {
    let mut soloed = soloed(&["Game"]);
    let mut seen = 3;

    clear_solo_on_rebuild(&mut soloed, &mut seen, 4);

    assert!(soloed.is_empty());
    assert_eq!(seen, 4);
}

#[test]
fn an_unchanged_rebuild_generation_leaves_the_solo_set_alone() {
    let mut soloed = soloed(&["Game"]);
    let mut seen = 3;

    clear_solo_on_rebuild(&mut soloed, &mut seen, 3);

    assert_eq!(soloed.names(), vec!["Game".to_string()]);
    assert_eq!(seen, 3);
}

#[test]
fn a_non_soloed_unmuted_group_is_dimmed_while_another_group_is_soloed() {
    assert!(is_dimmed_by_other_solo(true, false, false));
}

#[test]
fn the_soloed_group_itself_is_not_dimmed() {
    assert!(!is_dimmed_by_other_solo(true, true, false));
}

#[test]
fn a_muted_group_is_not_dimmed_even_when_silenced_by_another_groups_solo() {
    // Mute shows its own lit button already; dimming on top would mark the
    // group twice.
    assert!(!is_dimmed_by_other_solo(true, false, true));
}

#[test]
fn no_group_is_dimmed_when_solo_is_inactive() {
    assert!(!is_dimmed_by_other_solo(false, false, false));
}

#[test]
fn a_solo_is_one_groups_own() {
    let mut solos = soloed(&["Game"]);
    solos.set("Music", true);
    solos.set("Music", true);
    assert!(solos.contains("Game") && solos.contains("Music"));
    solos.set("Game", false);
    solos.set("Voice", false);
    assert!(!solos.contains("Game") && solos.contains("Music") && !solos.is_empty());
    solos.set("Music", false);
    assert!(solos.is_empty());
}
