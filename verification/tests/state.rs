use ceph_doctor::monitor::data::movement::fresh_movement;
use ceph_doctor::monitor::state::{same_text, CommandError, MonitorState, RecoveryData};
use std::collections::HashMap;

fn sample(objects: i64) -> RecoveryData {
    RecoveryData { objects, bytes: objects * 1000 }
}

fn failure(offset: u16) -> CommandError {
    CommandError {
        command: "ceph pg dump".to_string(),
        stdout: "out".to_string(),
        stderr: "err".to_string(),
        exit_code: 2,
        scroll_offset: offset,
    }
}

#[test]
fn a_new_state_is_empty() {
    let state = MonitorState::new();
    assert!(state.get_recovery_history("Missing").is_none());
    assert!(state.get_osd_movements().is_empty());
    assert!(state.get_inconsistent_pg_progress().is_empty());
    assert!(state.get_command_error_popup().is_none());
    assert!(!state.has_command_error_popup());
}

#[test]
fn recovery_data_is_kept_per_category() {
    let mut state = MonitorState::new();
    state.add_recovery_data("Missing", sample(5), 20);
    state.add_recovery_data("Degraded", sample(9), 20);
    state.add_recovery_data("Missing", sample(4), 20);
    assert_eq!(state.get_recovery_history("Missing"), Some(&vec![sample(5), sample(4)]));
    assert_eq!(state.get_recovery_history("Degraded"), Some(&vec![sample(9)]));
    assert!(state.get_recovery_history("Unfound").is_none());
    assert!(state.get_recovery_history("missing").is_none());
}

#[test]
fn recovery_history_is_bounded() {
    let mut state = MonitorState::new();
    for objects in 0..5 {
        state.add_recovery_data("Missing", sample(objects), 3);
    }
    assert_eq!(
        state.get_recovery_history("Missing"),
        Some(&vec![sample(2), sample(3), sample(4)])
    );
}

#[test]
fn recovery_history_can_be_changed_in_place() {
    let mut state = MonitorState::new();
    state.add_recovery_data("Missing", sample(5), 20);
    state.get_recovery_history_mut("Missing").push(sample(6));
    assert_eq!(state.get_recovery_history("Missing"), Some(&vec![sample(5), sample(6)]));
    assert!(state.get_recovery_history_mut("Unfound").is_empty());
    assert_eq!(state.get_recovery_history("Unfound"), Some(&vec![]));
    state.get_recovery_history_mut("Unfound").push(sample(1));
    assert_eq!(state.get_recovery_history("Unfound"), Some(&vec![sample(1)]));
    assert_eq!(state.get_recovery_history("Missing"), Some(&vec![sample(5), sample(6)]));
}

#[test]
fn clearing_forgets_one_family_only() {
    let mut state = MonitorState::new();
    state.add_recovery_data("Missing", sample(5), 20);
    state.set_osd_movements(HashMap::from([(1, fresh_movement(1))]));
    state.clear_recovery_history();
    assert!(state.get_recovery_history("Missing").is_none());
    assert_eq!(state.get_osd_movements().len(), 1);
    state.add_recovery_data("Missing", sample(5), 20);
    state.clear_osd_movements();
    assert!(state.get_osd_movements().is_empty());
    assert!(state.get_recovery_history("Missing").is_some());
    state.clear_inconsistent_pg_progress();
    assert!(state.get_inconsistent_pg_progress().is_empty());
}

#[test]
fn movements_can_be_set_and_changed() {
    let mut state = MonitorState::new();
    state.set_osd_movements(HashMap::from([(1, fresh_movement(1)), (2, fresh_movement(2))]));
    assert_eq!(state.get_osd_movements().len(), 2);
    state.get_osd_movements_mut().insert(3, fresh_movement(3));
    assert_eq!(state.get_osd_movements()[&3].osd_id, 3);
    state.get_inconsistent_pg_progress_mut().push(Default::default());
    assert_eq!(state.get_inconsistent_pg_progress().len(), 1);
    state.set_inconsistent_pg_progress(Vec::new());
    assert!(state.get_inconsistent_pg_progress().is_empty());
}

#[test]
fn the_command_error_is_shown_and_closed() {
    let mut state = MonitorState::new();
    state.set_command_error_popup(failure(0));
    assert!(state.has_command_error_popup());
    let shown = state.get_command_error_popup().unwrap();
    assert_eq!(shown.command, "ceph pg dump");
    assert_eq!(shown.exit_code, 2);
    state.clear_command_error_popup();
    assert!(!state.has_command_error_popup());
    assert!(state.get_command_error_popup().is_none());
}

#[test]
fn scrolling_stops_at_both_ends() {
    let mut state = MonitorState::new();
    state.scroll_popup_down();
    state.scroll_popup_up();
    assert!(state.get_command_error_popup().is_none());
    state.set_command_error_popup(failure(0));
    state.scroll_popup_up();
    assert_eq!(state.get_command_error_popup().unwrap().scroll_offset, 0);
    state.scroll_popup_down();
    state.scroll_popup_down();
    assert_eq!(state.get_command_error_popup().unwrap().scroll_offset, 2);
    state.scroll_popup_up();
    assert_eq!(state.get_command_error_popup().unwrap().scroll_offset, 1);
    assert_eq!(state.get_command_error_popup().unwrap().stderr, "err");
    state.set_command_error_popup(failure(u16::MAX));
    state.scroll_popup_down();
    assert_eq!(state.get_command_error_popup().unwrap().scroll_offset, u16::MAX);
}

#[test]
fn same_text_compares_characters() {
    assert!(same_text("", ""));
    assert!(same_text("Missing", "Missing"));
    assert!(!same_text("Missing", "Missin"));
    assert!(!same_text("Missing", "missing"));
}
