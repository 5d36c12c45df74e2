use protean::pause::PauseManager;

#[test]
fn manual_pause_adds_its_length() {
    let mut pm = PauseManager::new();
    pm.toggle_manual_pause(1_000);
    assert!(pm.is_paused());
    pm.toggle_manual_pause(4_500);
    assert!(!pm.is_paused());
    assert_eq!(pm.total_paused(), 3_500);
    assert_eq!(pm.active_duration(10_000), 6_500);
}

#[test]
fn overlapping_pauses_counted_once() {
    let mut pm = PauseManager::new();
    pm.toggle_manual_pause(1_000);
    pm.set_window_pause(true, 2_000);
    pm.set_window_pause(false, 3_000);
    assert!(pm.is_paused());
    pm.toggle_manual_pause(5_000);
    assert_eq!(pm.total_paused(), 4_000);
    assert!(!pm.is_paused());
}

#[test]
fn window_released_first_keeps_counting_manual_pause() {
    let mut pm = PauseManager::new();
    pm.toggle_manual_pause(10);
    pm.set_window_pause(true, 20);
    pm.set_window_pause(false, 30);
    assert_eq!(pm.active_duration(40), 10);
    pm.toggle_manual_pause(40);
    assert_eq!(pm.total_paused(), 30);
}

#[test]
fn manual_released_first_keeps_counting_window_pause() {
    let mut pm = PauseManager::new();
    pm.set_window_pause(true, 100);
    pm.toggle_manual_pause(200);
    pm.toggle_manual_pause(300);
    assert!(pm.is_paused());
    assert_eq!(pm.active_duration(500), 100);
    pm.set_window_pause(false, 600);
    assert_eq!(pm.total_paused(), 500);
    assert_eq!(pm.active_duration(700), 200);
}

#[test]
fn window_still_unfocused_keeps_loop_paused() {
    let mut pm = PauseManager::new();
    pm.set_window_pause(true, 100);
    pm.toggle_manual_pause(200);
    pm.toggle_manual_pause(300);
    assert!(pm.is_paused());
    assert!(pm.is_window_paused());
    assert!(!pm.is_manually_paused());
}

#[test]
fn active_duration_excludes_pause_under_way() {
    let mut pm = PauseManager::new();
    pm.set_window_pause(true, 4_000);
    assert_eq!(pm.active_duration(9_000), 4_000);
    pm.set_window_pause(true, 9_500);
    assert_eq!(pm.active_duration(9_500), 4_000);
}

#[test]
fn restart_clears_accounting() {
    let mut pm = PauseManager::new();
    pm.toggle_manual_pause(1_000);
    pm.toggle_manual_pause(2_000);
    pm.restart(3_000);
    assert_eq!(pm.total_paused(), 0);
    assert_eq!(pm.active_duration(3_500), 500);
    assert!(!pm.is_paused());
}
