use gp_track::screens::{
    finish_time, header_tag_labels, lab_overlays, standings_rows, PLACEHOLDER, overlays_from_switches, phase_badge, player_position,
    standings_entry, AppShell, BadgeTone, CarKind, Difficulty, Icon, Nav, Overlays, PhaseStatus,
    RaceConfig, Screen, SeatedGrid, SetupScreen, StandingEntry, CAR_NAMES, DIFFICULTY_LABELS, ICONS,
    PHASE_IDS, PHASE_NAMES, SUMMARY_LABELS, race_config, car_color, CAR_COLORS, lab_nav, results_nav, shell_nav, race_action,
};
use std::collections::HashSet;

const FIXED_CONFIG: RaceConfig = RaceConfig { cars: 4, laps: 5, v_target: 7, difficulty: Difficulty::Pro };

#[test]
fn linear_flow_setup_lab_race_results_menu() {
    let mut shell = AppShell::new(FIXED_CONFIG);
    assert_eq!(shell.screen(), Screen::Setup);
    shell.apply(Nav::Generate);
    assert_eq!(shell.screen(), Screen::Lab);
    shell.apply(Nav::TestLap);
    assert_eq!(shell.screen(), Screen::Race);
    shell.apply(Nav::Finish);
    assert_eq!(shell.screen(), Screen::Results);
    shell.apply(Nav::Menu);
    assert_eq!(shell.screen(), Screen::Setup);

    let mut from_lab = AppShell::new(FIXED_CONFIG);
    from_lab.apply(Nav::Generate);
    assert_eq!(from_lab.screen(), Screen::Lab);
    from_lab.apply(Nav::Menu);
    assert_eq!(from_lab.screen(), Screen::Setup);
}

#[test]
fn config_and_overlays_persist_across_transitions() {
    let non_default = RaceConfig { cars: 6, laps: 9, v_target: 10, difficulty: Difficulty::Ace };
    let mut shell = AppShell::new(non_default);
    shell.apply(Nav::Generate);
    assert_eq!(shell.config(), non_default, "config unchanged on Lab");
    shell.apply(Nav::TestLap);
    assert_eq!(shell.config(), non_default, "config unchanged on Race");
    let overlays = Overlays { speed_heatmap: true, fastest_lap: true, grid: false };
    shell.set_overlays(overlays);
    assert_eq!(shell.overlays(), overlays);
    assert_eq!(shell.screen(), Screen::Race, "overlays persist while still on Race");
    shell.apply(Nav::Finish);
    assert_eq!(shell.config(), non_default, "config unchanged on Results");
}

#[test]
fn regenerate_does_not_change_screen() {
    let mut shell = AppShell::new(FIXED_CONFIG);
    shell.apply(Nav::Generate);
    assert_eq!(shell.screen(), Screen::Lab);
    shell.apply(Nav::Regenerate);
    assert_eq!(shell.screen(), Screen::Lab);
}

#[test]
fn nav_jump_from_arbitrary_screen() {
    let mut shell = AppShell::new(FIXED_CONFIG);
    shell.apply(Nav::Generate);
    assert!(shell.has_generated());
    shell.apply(Nav::JumpTo(Screen::Setup));
    assert_eq!(shell.screen(), Screen::Setup);
    shell.apply(Nav::JumpTo(Screen::Race));
    assert_eq!(shell.screen(), Screen::Race);
    shell.apply(Nav::JumpTo(Screen::Setup));
    assert_eq!(shell.screen(), Screen::Setup);
    shell.apply(Nav::JumpTo(Screen::Race));
    shell.apply(Nav::Finish);
    assert_eq!(shell.screen(), Screen::Results);
    shell.apply(Nav::JumpTo(Screen::Lab));
    assert_eq!(shell.screen(), Screen::Lab);
}

#[test]
fn nav_guard_before_first_generate() {
    let mut shell = AppShell::new(FIXED_CONFIG);
    assert!(!shell.has_generated());
    shell.apply(Nav::JumpTo(Screen::Race));
    assert_eq!(shell.screen(), Screen::Setup, "Race jump is a no-op before the first generate");
    shell.apply(Nav::JumpTo(Screen::Lab));
    assert_eq!(shell.screen(), Screen::Setup, "Lab jump is a no-op before the first generate");
    shell.apply(Nav::JumpTo(Screen::Setup));
    assert_eq!(shell.screen(), Screen::Setup, "Setup jump always allowed");
    shell.apply(Nav::Generate);
    assert!(shell.has_generated());
    assert_eq!(shell.screen(), Screen::Lab);
    shell.apply(Nav::JumpTo(Screen::Race));
    assert_eq!(shell.screen(), Screen::Race, "Race jump now allowed");
    shell.apply(Nav::JumpTo(Screen::Lab));
    assert_eq!(shell.screen(), Screen::Lab, "Lab jump now allowed");
    shell.apply(Nav::JumpTo(Screen::Setup));
    assert_eq!(shell.screen(), Screen::Setup, "Setup jump still allowed");
}

#[test]
fn can_nav_guards_race_and_lab_until_generated() {
    let mut shell = AppShell::new(FIXED_CONFIG);
    assert!(shell.can_nav(Screen::Setup));
    assert!(!shell.can_nav(Screen::Race));
    assert!(!shell.can_nav(Screen::Lab));
    shell.apply(Nav::Generate);
    assert!(shell.can_nav(Screen::Race));
    assert!(shell.can_nav(Screen::Results));
}

#[test]
fn set_config_replaces_only_the_config() {
    let mut shell = AppShell::new(FIXED_CONFIG);
    let other = RaceConfig { cars: 2, laps: 1, v_target: 3, difficulty: Difficulty::Rookie };
    shell.set_config(other);
    assert_eq!(shell.config(), other);
    assert_eq!(shell.screen(), Screen::Setup);
    assert_eq!(shell.overlays(), Overlays::default());
}

#[test]
fn setup_screen_starts_from_the_given_config() {
    let screen = SetupScreen::new(FIXED_CONFIG);
    let copy = screen;
    let _ = copy;
}

#[test]
fn icon_all_and_names_are_the_five_distinct_variants() {
    assert_eq!(ICONS.len(), 5);
    let names: HashSet<&str> = ICONS.iter().map(|icon| icon.name()).collect();
    assert_eq!(names.len(), 5, "Icon::name() values were not pairwise distinct");
    assert_eq!(Icon::Grid3x3.name(), "grid-3x3");
}

#[test]
fn lab_overlays_are_all_on() {
    let o = lab_overlays();
    assert!(o.speed_heatmap);
    assert!(o.fastest_lap);
    assert!(o.grid);
}

#[test]
fn phase_tables_have_seven_entries_and_correct_tones() {
    assert_eq!(PHASE_IDS.len(), 7);
    assert_eq!(PHASE_NAMES.len(), 7);
    assert_eq!(phase_badge(PhaseStatus::Clean), (BadgeTone::Clean, "✓"));
    assert_eq!(phase_badge(PhaseStatus::Repair), (BadgeTone::Warn, "repair"));
}

#[test]
fn phase_badge_covers_every_status() {
    assert_eq!(phase_badge(PhaseStatus::Pending), (BadgeTone::Neutral, "…"));
    assert_eq!(phase_badge(PhaseStatus::Skipped), (BadgeTone::Neutral, "skip"));
    assert_eq!(phase_badge(PhaseStatus::Failed), (BadgeTone::Danger, "failed"));
}

#[test]
fn phase_status_total_order_is_declaration_order() {
    let ascending = [
        PhaseStatus::Pending,
        PhaseStatus::Skipped,
        PhaseStatus::Clean,
        PhaseStatus::Repair,
        PhaseStatus::Failed,
    ];
    for pair in ascending.windows(2) {
        assert!(pair[0] < pair[1], "{pair:?} should be strictly ascending");
    }
    assert!(PhaseStatus::Clean > PhaseStatus::Skipped);
    assert_eq!(
        [PhaseStatus::Skipped, PhaseStatus::Failed, PhaseStatus::Clean, PhaseStatus::Pending].into_iter().max(),
        Some(PhaseStatus::Failed)
    );
    assert_eq!(
        [PhaseStatus::Pending, PhaseStatus::Skipped, PhaseStatus::Clean].into_iter().max(),
        Some(PhaseStatus::Clean)
    );
}

#[test]
fn header_tag_labels_formats_u64_seed_without_truncation() {
    assert_eq!(header_tag_labels(42, None), vec!["seed 42".to_owned()]);
    assert_eq!(header_tag_labels(2_147_483_648, None), vec!["seed 2147483648".to_owned()]);
}

#[test]
fn header_tag_labels_seated_notice_only_when_short() {
    assert_eq!(header_tag_labels(42, None), vec!["seed 42".to_owned()]);
    assert_eq!(
        header_tag_labels(42, Some(SeatedGrid { seated: 6, requested: 6 })),
        vec!["seed 42".to_owned()]
    );
    assert_eq!(
        header_tag_labels(42, Some(SeatedGrid { seated: 3, requested: 6 })),
        vec!["seed 42".to_owned(), "seated 3 of 6".to_owned()]
    );
}

#[test]
fn header_tag_labels_formats_zero_and_the_largest_seed() {
    assert_eq!(header_tag_labels(0, None), vec!["seed 0".to_owned()]);
    assert_eq!(header_tag_labels(u64::MAX, None), vec!["seed 18446744073709551615".to_owned()]);
}

#[test]
fn label_and_index_round_trip() {
    for variant in [Difficulty::Rookie, Difficulty::Pro, Difficulty::Ace] {
        let index = variant.to_index();
        assert_eq!(Difficulty::from_index(index), Some(variant));
    }
}

#[test]
fn from_index_out_of_range_is_none() {
    assert_eq!(Difficulty::from_index(3), None);
    assert_eq!(Difficulty::from_index(usize::MAX), None);
}

#[test]
fn difficulty_labels_are_exact() {
    assert_eq!(DIFFICULTY_LABELS, ["Rookie", "Pro", "Ace"]);
}

#[test]
fn difficulty_labels_match_label_for_every_variant() {
    for variant in [Difficulty::Rookie, Difficulty::Pro, Difficulty::Ace] {
        assert_eq!(DIFFICULTY_LABELS[variant.to_index()], variant.label());
    }
}

#[test]
fn overlays_from_switches_maps_each_flag_independently() {
    let all_off = overlays_from_switches(false, false, false);
    assert!(!all_off.grid);
    assert!(!all_off.speed_heatmap);
    assert!(!all_off.fastest_lap);

    let grid_only = overlays_from_switches(true, false, false);
    assert!(grid_only.grid);
    assert!(!grid_only.speed_heatmap);
    assert!(!grid_only.fastest_lap);

    let heatmap_only = overlays_from_switches(false, true, false);
    assert!(!heatmap_only.grid);
    assert!(heatmap_only.speed_heatmap);
    assert!(!heatmap_only.fastest_lap);

    let fastest_only = overlays_from_switches(false, false, true);
    assert!(!fastest_only.grid);
    assert!(!fastest_only.speed_heatmap);
    assert!(fastest_only.fastest_lap);

    let all_on = overlays_from_switches(true, true, true);
    assert!(all_on.grid);
    assert!(all_on.speed_heatmap);
    assert!(all_on.fastest_lap);
}

#[test]
fn overlays_from_switches_initial_default_matches_jsx() {
    let default = overlays_from_switches(true, false, false);
    assert!(default.grid);
    assert!(!default.speed_heatmap);
    assert!(!default.fastest_lap);
}

#[test]
fn standings_entry_index_zero_is_player() {
    let (name, kind, rank, active) = standings_entry(0);
    assert_eq!(name, "You");
    assert_eq!(kind, CarKind::You);
    assert_eq!(rank, 1);
    assert!(active);
}

#[test]
fn standings_entry_nonzero_index_is_ai() {
    let (name, kind, rank, active) = standings_entry(2);
    assert_eq!(name, "Rival Green");
    assert_eq!(kind, CarKind::Ai);
    assert_eq!(rank, 3);
    assert!(!active);
}

#[test]
fn car_names_length_and_first_entry() {
    assert_eq!(CAR_NAMES.len(), 6);
    assert_eq!(CAR_NAMES[0], "You");
}

#[test]
fn standings_entry_out_of_range_index_falls_back_to_car() {
    let (name, kind, rank, active) = standings_entry(9);
    assert_eq!(name, "Car");
    assert_eq!(kind, CarKind::Ai);
    assert_eq!(rank, 10);
    assert!(!active);
}

#[test]
fn standings_entry_rank_saturates() {
    let (name, _kind, rank, _active) = standings_entry(usize::MAX);
    assert_eq!(name, "Car");
    assert_eq!(rank, u32::MAX);
}

fn fixture_standings() -> [StandingEntry; 4] {
    [
        StandingEntry { car_index: 2, kind: CarKind::Ai, rank: 1, finish_turn: Some(38) },
        StandingEntry { car_index: 9, kind: CarKind::Ai, rank: 2, finish_turn: Some(40) },
        StandingEntry { car_index: 0, kind: CarKind::You, rank: 3, finish_turn: Some(41) },
        StandingEntry { car_index: 1, kind: CarKind::Ai, rank: 4, finish_turn: None },
    ]
}

#[test]
fn player_position_returns_you_entry_rank() {
    assert_eq!(player_position(&fixture_standings()), Some(3));
}

#[test]
fn player_position_none_when_no_you_entry() {
    let all_ai: [StandingEntry; 2] = [
        StandingEntry { car_index: 0, kind: CarKind::Ai, rank: 1, finish_turn: Some(10) },
        StandingEntry { car_index: 1, kind: CarKind::Ai, rank: 2, finish_turn: Some(11) },
    ];
    assert_eq!(player_position(&all_ai), None);
    assert_eq!(player_position(&[]), None);
}

#[test]
fn summary_labels_are_present_in_order() {
    assert_eq!(SUMMARY_LABELS, ["Fastest lap, turns", "Tempo, cells/turn", "Crashes"]);
}

#[test]
fn standings_rows_length_matches_entry_count() {
    assert_eq!(standings_rows(&fixture_standings()).len(), 4);
}

#[test]
fn standings_rows_ranks_are_ascending() {
    let rows = standings_rows(&fixture_standings());
    assert!(rows.windows(2).all(|w| w[0].rank < w[1].rank));
}

#[test]
fn standings_rows_resolves_identity_from_car_index_not_slice_position() {
    let rows = standings_rows(&fixture_standings());
    assert_eq!(rows[2].name, "You");
    assert_eq!(rows[2].color, car_color(0).unwrap_or(CAR_COLORS[0]));
    assert_eq!(rows[2].kind, CarKind::You);
}

#[test]
fn standings_rows_resolves_names_by_car_index() {
    let rows = standings_rows(&fixture_standings());
    assert_eq!(rows[0].name, "Rival Green");
    assert_eq!(rows[1].name, "Car");
}

#[test]
fn standings_rows_formats_finish_turn() {
    let rows = standings_rows(&fixture_standings());
    assert_eq!(rows[0].finish_time, "38 turns");
    assert_eq!(rows[1].finish_time, "40 turns");
    assert_eq!(rows[3].finish_time, PLACEHOLDER);
    assert_eq!(finish_time(Some(0)), "0 turns");
}

#[test]
fn race_config_keeps_in_range_values() {
    let config = race_config(4, 3, 5, Difficulty::Pro);
    assert_eq!(config, RaceConfig { cars: 4, laps: 3, v_target: 5, difficulty: Difficulty::Pro });
}

#[test]
fn race_config_clamps_cars_laps_and_speed() {
    assert_eq!(race_config(0, 3, 5, Difficulty::Pro).cars, 2);
    assert_eq!(race_config(99, 3, 5, Difficulty::Pro).cars, 6);
    assert_eq!(race_config(4, 0, 5, Difficulty::Pro).laps, 1);
    assert_eq!(race_config(4, 99, 5, Difficulty::Pro).laps, 9);
    assert_eq!(race_config(4, 3, 2, Difficulty::Pro).v_target, 3);
    assert_eq!(race_config(4, 3, 11, Difficulty::Pro).v_target, 10);
    let extreme = race_config(i32::MIN, i32::MAX, i32::MIN, Difficulty::Ace);
    assert_eq!((extreme.cars, extreme.laps, extreme.v_target), (2, 9, 3));
}

#[test]
fn standings_rows_formats_non_finisher_as_placeholder() {
    let rows = standings_rows(&fixture_standings());
    assert_eq!(rows[3].finish_time, PLACEHOLDER);
}

/// Exact `f32` comparison, naming the value on failure.
fn assert_f32(label: &str, got: f32, want: f32) {
    assert_eq!(got, want, "{label}: value != expected");
}

/// Element-wise `f32` comparison, naming the differing index on failure.
fn assert_f32_slice(label: &str, got: &[f32], want: &[f32]) {
    assert_eq!(got.len(), want.len(), "{label}: length mismatch");
    for (index, (g, w)) in got.iter().zip(want.iter()).enumerate() {
        assert_f32(&format!("{label}[{index}]"), *g, *w);
    }
}

#[test]
fn assert_f32_accepts_an_equal_value() {
    let got: f32 = "1.05".parse().expect("valid float literal");
    assert_f32("probe", got, 1.05);
}

#[test]
fn assert_f32_slice_accepts_equal_arrays() {
    assert_f32_slice("probe", &[0.2, 0.0, 0.1, 1.0], &[0.2, 0.0, 0.1, 1.0]);
}

#[test]
fn standings_rows_colors_by_car_index_and_falls_back_to_the_first() {
    let rows = standings_rows(&fixture_standings());
    assert_eq!(rows[0].color, 0x2E9E_5BFF);
    assert_eq!(rows[1].color, CAR_COLORS[0]);
    assert_eq!(car_color(6), None);
}

#[test]
fn screen_buttons_resolve_to_one_intent_by_precedence() {
    assert_eq!(lab_nav(true, true, true), Some(Nav::TestLap));
    assert_eq!(lab_nav(false, true, true), Some(Nav::Menu));
    assert_eq!(lab_nav(false, false, true), Some(Nav::Regenerate));
    assert_eq!(lab_nav(false, false, false), None);
    assert_eq!(results_nav(true, true), Some(Nav::Again));
    assert_eq!(results_nav(false, true), Some(Nav::Menu));
    assert_eq!(results_nav(false, false), None);
}

#[test]
fn a_screen_intent_wins_over_a_top_bar_jump() {
    assert_eq!(shell_nav(Some(Nav::Menu), Some(Screen::Race)), Some(Nav::Menu));
    assert_eq!(shell_nav(None, Some(Screen::Race)), Some(Nav::JumpTo(Screen::Race)));
    assert_eq!(shell_nav(Some(Nav::Generate), None), Some(Nav::Generate));
    assert_eq!(shell_nav(None, None), None);
}

#[test]
fn the_coast_shortcut_wins_over_a_move_pad_change() {
    assert_eq!(race_action(true, 'c', true, Some('n')), Some('c'));
    assert_eq!(race_action(false, 'c', true, Some('n')), Some('n'));
    assert_eq!(race_action(false, 'c', true, None), None);
    assert_eq!(race_action(false, 'c', false, Some('n')), None);
}
