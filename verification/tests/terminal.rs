use ceph_doctor::monitor::terminal::{
    interrupts, is_quit_key, is_scroll_down, is_scroll_up, should_close_popup, should_quit,
    sleep_slices, sleep_step, InputEvent, KeyCode, KeyPress, SleepResult, SleepStep,
    SLEEP_SLICE_MILLIS,
};

fn key(code: KeyCode) -> KeyPress {
    KeyPress { code, control: false }
}

fn press(code: KeyCode) -> InputEvent {
    InputEvent::Key(key(code))
}

fn control(code: KeyCode) -> InputEvent {
    InputEvent::Key(KeyPress { code, control: true })
}

#[test]
fn quit_keys_are_q_escape_and_control_c() {
    assert!(is_quit_key(&key(KeyCode::Char('q'))));
    assert!(is_quit_key(&key(KeyCode::Esc)));
    assert!(is_quit_key(&KeyPress { code: KeyCode::Char('c'), control: true }));
    assert!(is_quit_key(&KeyPress { code: KeyCode::Char('q'), control: true }));
    assert!(!is_quit_key(&key(KeyCode::Char('c'))));
    assert!(!is_quit_key(&key(KeyCode::Char('Q'))));
    assert!(!is_quit_key(&key(KeyCode::Enter)));
    assert!(!is_quit_key(&key(KeyCode::Other)));
}

#[test]
fn only_key_presses_ask_to_leave() {
    assert!(should_quit(&press(KeyCode::Char('q'))));
    assert!(should_quit(&control(KeyCode::Char('c'))));
    assert!(!should_quit(&press(KeyCode::Char('x'))));
    assert!(!should_quit(&InputEvent::Resize));
    assert!(!should_quit(&InputEvent::Other));
}

#[test]
fn the_command_error_is_closed_and_scrolled_by_its_keys() {
    assert!(should_close_popup(&press(KeyCode::Enter)));
    assert!(should_close_popup(&press(KeyCode::Char(' '))));
    assert!(should_close_popup(&press(KeyCode::Esc)));
    assert!(!should_close_popup(&press(KeyCode::Char('k'))));
    assert!(!should_close_popup(&InputEvent::Resize));
    assert!(is_scroll_up(&press(KeyCode::Up)));
    assert!(is_scroll_up(&press(KeyCode::Char('k'))));
    assert!(!is_scroll_up(&press(KeyCode::Down)));
    assert!(!is_scroll_up(&InputEvent::Other));
    assert!(is_scroll_down(&press(KeyCode::Down)));
    assert!(is_scroll_down(&press(KeyCode::Char('j'))));
    assert!(!is_scroll_down(&press(KeyCode::Up)));
    assert!(!is_scroll_down(&InputEvent::Resize));
}

#[test]
fn a_wait_is_made_of_quarter_seconds() {
    assert_eq!(SLEEP_SLICE_MILLIS, 250);
    assert_eq!(sleep_slices(0), 0);
    assert_eq!(sleep_slices(1), 4);
    assert_eq!(sleep_slices(5), 20);
    assert_eq!(sleep_slices(u64::MAX / 4), u64::MAX - 3);
    assert_eq!(sleep_slices(u64::MAX / 4 + 1), u64::MAX);
    assert_eq!(sleep_slices(u64::MAX), u64::MAX);
}

#[test]
fn events_interrupt_a_wait() {
    assert_eq!(interrupts(&press(KeyCode::Char('q'))), Some(SleepResult::Quit));
    assert_eq!(interrupts(&press(KeyCode::Esc)), Some(SleepResult::Quit));
    assert_eq!(interrupts(&InputEvent::Resize), Some(SleepResult::Resize));
    assert_eq!(interrupts(&press(KeyCode::Enter)), Some(SleepResult::PopupClose));
    assert_eq!(interrupts(&press(KeyCode::Char(' '))), Some(SleepResult::PopupClose));
    assert_eq!(interrupts(&press(KeyCode::Up)), Some(SleepResult::PopupScrollUp));
    assert_eq!(interrupts(&press(KeyCode::Char('j'))), Some(SleepResult::PopupScrollDown));
    assert_eq!(interrupts(&press(KeyCode::Char('x'))), None);
    assert_eq!(interrupts(&InputEvent::Other), None);
}

#[test]
fn a_wait_goes_on_slice_by_slice() {
    assert_eq!(sleep_step(20, None), SleepStep::Again(19));
    assert_eq!(sleep_step(2, None), SleepStep::Again(1));
    assert_eq!(sleep_step(1, None), SleepStep::Done(SleepResult::Continue));
    assert_eq!(sleep_step(0, None), SleepStep::Done(SleepResult::Continue));
    assert_eq!(sleep_step(20, Some(InputEvent::Other)), SleepStep::Again(19));
    assert_eq!(
        sleep_step(20, Some(press(KeyCode::Char('q')))),
        SleepStep::Done(SleepResult::Quit)
    );
    assert_eq!(sleep_step(1, Some(InputEvent::Resize)), SleepStep::Done(SleepResult::Resize));
}
