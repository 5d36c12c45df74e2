use protean::battle::{BattlePhase, BattleState};
use protean::config::{Region, default_preprocess_images, is_target_window};
use protean::monitor::{Command, KeyAction, command_for_key, handle_command};
use protean::pause::PauseManager;
use protean::table::FrequencyTable;

#[test]
fn keys_map_to_commands() {
    assert_eq!(command_for_key('p'), Some(Command::TogglePause));
    assert_eq!(command_for_key('P'), Some(Command::TogglePause));
    assert_eq!(command_for_key('R'), Some(Command::Restart));
    assert_eq!(command_for_key('s'), Some(Command::ShowStatistics));
    assert_eq!(command_for_key('n'), Some(Command::Normalize));
    assert_eq!(command_for_key('?'), Some(Command::ShowHelp));
    assert_eq!(command_for_key('q'), Some(Command::Quit));
    assert_eq!(command_for_key('x'), None);
}

#[test]
fn commands_change_the_run() {
    let mut pm = PauseManager::new();
    let mut bs = BattleState::new();
    let mut tc = FrequencyTable::new();
    tc.record("Pidgey".to_string());
    tc.record("Pidgey!".to_string());
    bs.observe(Some("A".to_string()), 2);
    assert_eq!(handle_command(Command::TogglePause, &mut pm, &mut bs, &mut tc, 10), KeyAction::Continue);
    assert!(pm.is_paused());
    assert_eq!(handle_command(Command::Normalize, &mut pm, &mut bs, &mut tc, 20), KeyAction::Continue);
    assert_eq!(tc.entries(), &vec![("Pidgey".to_string(), 2usize)]);
    assert_eq!(handle_command(Command::ShowStatistics, &mut pm, &mut bs, &mut tc, 30), KeyAction::ShowStatistics);
    assert_eq!(handle_command(Command::ShowHelp, &mut pm, &mut bs, &mut tc, 30), KeyAction::ShowHelp);
    assert_eq!(handle_command(Command::Restart, &mut pm, &mut bs, &mut tc, 40), KeyAction::Continue);
    assert_eq!(tc.len(), 0);
    assert!(matches!(bs.phase(), BattlePhase::Idle));
    assert!(!pm.is_paused());
    assert_eq!(handle_command(Command::Quit, &mut pm, &mut bs, &mut tc, 50), KeyAction::Quit);
}

#[test]
fn preset_values() {
    let r = Region::preset();
    assert_eq!((r.x, r.y, r.width, r.height), (2575, 70, 870, 55));
    assert!(!default_preprocess_images());
}

#[test]
fn target_window_class() {
    assert!(is_target_window("PROClient.x86_64"));
    assert!(!is_target_window("firefox"));
    assert!(!is_target_window("PROClient"));
}
