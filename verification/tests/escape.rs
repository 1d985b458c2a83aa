use exergon_core::escape::{
    escape_completions, finish_run, is_escape_machine, record_escape, saves_on_exit, unlock_gateway_on_discovery,
    EscapeStats, RunSaveHeader, RunState, RunStatus,
};
use exergon_core::research::TechTreeProgress;
use exergon_core::scenario::DifficultyTier;

#[test]
fn launch_site_machine_gets_escape_objective() {
    assert!(is_escape_machine("launch_site"));
}

#[test]
fn ordinary_machine_gets_no_escape_objective() {
    assert!(!is_escape_machine("smelter"));
}

#[test]
fn escape_objective_fires_escape_event() {
    assert_eq!(escape_completions(&vec![7], &vec![7]), 1);
}

#[test]
fn non_escape_machine_does_not_fire_escape_event() {
    assert_eq!(escape_completions(&vec![3], &vec![7]), 0);
}

fn header() -> RunSaveHeader {
    RunSaveHeader {
        run_id: "abc".to_string(),
        seed_text: "seed words".to_string(),
        difficulty: DifficultyTier::Initiation,
        status: RunStatus::InProgress,
        start_time_secs: 100,
        end_time_secs: None,
        total_playtime_secs_bits: 42.5f64.to_bits(),
    }
}

#[test]
fn escape_completes_run_and_fills_stats() {
    let mut state = RunState::default();
    let mut h = Some(header());
    let mut stats = EscapeStats { archetype: String::new(), seed_text: String::new(), playtime_secs_bits: 0 };
    record_escape(&mut state, &mut h, &mut stats, Some("FrozenGeothermal"));
    assert_eq!(state, RunState::Completed);
    assert_eq!(h.as_ref().unwrap().status, RunStatus::Completed);
    assert_eq!(stats.seed_text, "seed words");
    assert_eq!(f64::from_bits(stats.playtime_secs_bits), 42.5);
    assert_eq!(stats.archetype, "FrozenGeothermal");
    assert!(!saves_on_exit(h.as_ref().unwrap()));
}

#[test]
fn escape_without_header_or_planet_keeps_stats() {
    let mut state = RunState::InProgress;
    let mut h: Option<RunSaveHeader> = None;
    let mut stats = EscapeStats { archetype: "x".to_string(), seed_text: "y".to_string(), playtime_secs_bits: 5 };
    record_escape(&mut state, &mut h, &mut stats, None);
    assert_eq!(state, RunState::Completed);
    assert!(h.is_none());
    assert_eq!(stats.archetype, "x");
    assert_eq!(stats.playtime_secs_bits, 5);
}

#[test]
fn finishing_a_run_stamps_end_time() {
    let mut h = header();
    assert!(saves_on_exit(&h));
    finish_run(&mut h, 900);
    assert_eq!(h.status, RunStatus::Completed);
    assert_eq!(h.end_time_secs, Some(900));
}

#[test]
fn gateway_discovery_unlocks_activation_recipe() {
    let mut p = TechTreeProgress::new();
    unlock_gateway_on_discovery(&vec!["xalite_site".to_string()], &mut p);
    assert!(!p.unlocked_recipes.contains("activate_gateway"));
    unlock_gateway_on_discovery(&vec!["xalite_site".to_string(), "gateway_ruins".to_string()], &mut p);
    assert!(p.unlocked_recipes.contains("activate_gateway"));
    assert_eq!(p.unlocked_recipes.len(), 1);
}
