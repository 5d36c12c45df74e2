use protean::battle::{BattlePhase, BattleState};
use protean::monitor::process_ocr_text;
use protean::table::FrequencyTable;

fn detected(state: &BattleState) -> Option<String> {
    match state.phase() {
        BattlePhase::PokemonDetected { name } => Some(name.clone()),
        _ => None,
    }
}

#[test]
fn one_encounter_counted_at_last_empty_tick() {
    let mut state = BattleState::new();
    let threshold: u32 = 3;
    assert_eq!(state.observe(Some("A".to_string()), threshold), None);
    assert_eq!(state.observe(Some("A".to_string()), threshold), None);
    assert!(matches!(state.phase(), BattlePhase::BattleActive { .. }));
    assert_eq!(state.observe(None, threshold), None);
    assert_eq!(state.observe(None, threshold), None);
    assert_eq!(state.observe(None, threshold), Some("A".to_string()));
    assert!(matches!(state.phase(), BattlePhase::Idle));
}

#[test]
fn superseded_detection_is_not_counted() {
    let mut state = BattleState::new();
    assert_eq!(state.observe(Some("A".to_string()), 2), None);
    assert_eq!(state.observe(Some("B".to_string()), 2), None);
    assert_eq!(detected(&state), Some("B".to_string()));
    assert_eq!(state.observe(Some("B".to_string()), 2), None);
    assert_eq!(state.observe(None, 2), None);
    assert_eq!(state.observe(None, 2), Some("B".to_string()));
}

#[test]
fn new_name_while_ending_replaces_pending_one() {
    let mut state = BattleState::new();
    state.observe(Some("A".to_string()), 3);
    state.observe(Some("A".to_string()), 3);
    state.observe(None, 3);
    assert!(matches!(state.phase(), BattlePhase::BattleEnding { empty_count: 1, .. }));
    assert_eq!(state.observe(Some("B".to_string()), 3), None);
    assert_eq!(detected(&state), Some("B".to_string()));
}

#[test]
fn active_ignores_other_names() {
    let mut state = BattleState::new();
    state.observe(Some("A".to_string()), 2);
    state.observe(Some("A".to_string()), 2);
    assert_eq!(state.observe(Some("B".to_string()), 2), None);
    match state.phase() {
        BattlePhase::BattleActive { name } => assert_eq!(name, "A"),
        _ => panic!("expected an active battle"),
    }
}

#[test]
fn threshold_of_one_counts_on_second_empty_tick() {
    let mut state = BattleState::new();
    state.observe(Some("A".to_string()), 1);
    state.observe(Some("A".to_string()), 1);
    assert_eq!(state.observe(None, 1), None);
    assert_eq!(state.observe(None, 1), Some("A".to_string()));
}

#[test]
fn reset_returns_to_idle() {
    let mut state = BattleState::new();
    state.observe(Some("A".to_string()), 2);
    state.reset();
    assert!(matches!(state.phase(), BattlePhase::Idle));
}

#[test]
fn end_to_end_ticks() {
    let ticks = ["", "VS. Wild PIDGEY", "VS. Wild PIDGEY", "", "", "VS. Wild RATTATA"];
    let mut state = BattleState::new();
    let mut counts = FrequencyTable::new();
    let mut counted = Vec::new();
    for (i, text) in ticks.iter().enumerate() {
        if let Some(name) = process_ocr_text(text, &mut state, &mut counts, 2) {
            counted.push(name);
        }
        if i == 4 {
            assert_eq!(counts.entries(), &vec![("PIDGEY".to_string(), 1usize)]);
        }
    }
    assert_eq!(counted, vec!["PIDGEY".to_string()]);
    assert_eq!(detected(&state), Some("RATTATA".to_string()));
    assert_eq!(counts.count("RATTATA"), 0);
    assert_eq!(counts.count("PIDGEY"), 1);
}

#[test]
fn update_reads_the_marker() {
    let mut state = BattleState::new();
    assert_eq!(state.update("noise without marker", 2), None);
    assert!(matches!(state.phase(), BattlePhase::Idle));
    state.update("vs. wild Zubat", 2);
    assert_eq!(detected(&state), Some("Zubat".to_string()));
}

#[test]
fn single_sighting_then_empty_ticks_is_counted() {
    let mut state = BattleState::new();
    assert_eq!(state.observe(Some("A".to_string()), 2), None);
    assert_eq!(state.observe(None, 2), None);
    assert_eq!(state.observe(None, 2), Some("A".to_string()));
}
