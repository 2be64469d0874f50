//! What the keys and the window tell the session.
//!
//! The terminal itself is not here: a key press or a change of the window's
//! size arrives as a plain value, and what is decided of it leaves as one.

use vstd::prelude::*;

verus! {

/// The key of a key press, as far as the session tells keys apart.
#[derive(Clone, Copy, Debug, PartialEq, Eq, Structural)]
pub enum KeyCode {
    /// A key that gives a character.
    Char(char),
    /// The escape key.
    Esc,
    /// The enter key.
    Enter,
    /// The arrow up.
    Up,
    /// The arrow down.
    Down,
    /// Any other key.
    Other,
}

/// A key press.
#[derive(Clone, Copy, Debug, PartialEq, Eq, Structural)]
pub struct KeyPress {
    /// The key.
    pub code: KeyCode,
    /// Whether the control key was held with it, and no other modifier.
    pub control: bool,
}

/// What the terminal reports.
#[derive(Clone, Copy, Debug, PartialEq, Eq, Structural)]
pub enum InputEvent {
    /// A key was pressed.
    Key(KeyPress),
    /// The window has a new size.
    Resize,
    /// Anything else.
    Other,
}

/// How a wait for the next poll came to its end.
#[derive(Clone, Copy, Debug, PartialEq, Eq, Structural)]
pub enum SleepResult {
    /// The time is up.
    Continue,
    /// The user asked to leave.
    Quit,
    /// The window has a new size.
    Resize,
    /// The user asked to close the command error.
    PopupClose,
    /// The user asked to scroll the command error up.
    PopupScrollUp,
    /// The user asked to scroll the command error down.
    PopupScrollDown,
}

/// The length of one slice of a wait, in milliseconds. The terminal is asked
/// for an event after each slice.
pub const SLEEP_SLICE_MILLIS: u64 = 250;

/// A key asks to leave where it is `c` with control, `q`, or escape.
pub open spec fn spec_is_quit_key(key: KeyPress) -> bool {
    ||| key.code == KeyCode::Char('c') && key.control
    ||| key.code == KeyCode::Char('q')
    ||| key.code == KeyCode::Esc
}

/// Whether a key asks to leave.
pub fn is_quit_key(key: &KeyPress) -> (quit: bool)
    ensures
        quit == spec_is_quit_key(*key),
{
    match key.code {
        KeyCode::Char(c) => (c == 'c' && key.control) || c == 'q',
        KeyCode::Esc => true,
        _ => false,
    }
}

/// An event asks to leave where it is a key press that does.
pub open spec fn spec_should_quit(event: InputEvent) -> bool {
    match event {
        InputEvent::Key(key) => spec_is_quit_key(key),
        _ => false,
    }
}

/// Whether an event asks to leave.
pub fn should_quit(event: &InputEvent) -> (quit: bool)
    ensures
        quit == spec_should_quit(*event),
{
    match event {
        InputEvent::Key(key) => is_quit_key(key),
        _ => false,
    }
}

/// An event asks to close the command error where it is the enter key, the
/// space bar or escape.
pub open spec fn spec_should_close_popup(event: InputEvent) -> bool {
    match event {
        InputEvent::Key(key) => key.code == KeyCode::Enter || key.code == KeyCode::Char(' ')
            || key.code == KeyCode::Esc,
        _ => false,
    }
}

/// Whether an event asks to close the command error.
pub fn should_close_popup(event: &InputEvent) -> (close: bool)
    ensures
        close == spec_should_close_popup(*event),
{
    match event {
        InputEvent::Key(key) => match key.code {
            KeyCode::Enter => true,
            KeyCode::Esc => true,
            KeyCode::Char(c) => c == ' ',
            _ => false,
        },
        _ => false,
    }
}

/// An event asks to scroll up where it is the arrow up or `k`.
pub open spec fn spec_is_scroll_up(event: InputEvent) -> bool {
    match event {
        InputEvent::Key(key) => key.code == KeyCode::Up || key.code == KeyCode::Char('k'),
        _ => false,
    }
}

/// Whether an event asks to scroll up.
pub fn is_scroll_up(event: &InputEvent) -> (up: bool)
    ensures
        up == spec_is_scroll_up(*event),
{
    match event {
        InputEvent::Key(key) => match key.code {
            KeyCode::Up => true,
            KeyCode::Char(c) => c == 'k',
            _ => false,
        },
        _ => false,
    }
}

/// An event asks to scroll down where it is the arrow down or `j`.
pub open spec fn spec_is_scroll_down(event: InputEvent) -> bool {
    match event {
        InputEvent::Key(key) => key.code == KeyCode::Down || key.code == KeyCode::Char('j'),
        _ => false,
    }
}

/// Whether an event asks to scroll down.
pub fn is_scroll_down(event: &InputEvent) -> (down: bool)
    ensures
        down == spec_is_scroll_down(*event),
{
    match event {
        InputEvent::Key(key) => match key.code {
            KeyCode::Down => true,
            KeyCode::Char(c) => c == 'j',
            _ => false,
        },
        _ => false,
    }
}

/// The slices that a wait of `duration_secs` seconds is made of, held at the
/// largest number where they are more.
pub open spec fn spec_sleep_slices(duration_secs: u64) -> u64 {
    if duration_secs <= u64::MAX / 4 {
        (duration_secs * 4) as u64
    } else {
        u64::MAX
    }
}

/// The slices that a wait of `duration_secs` seconds is made of.
pub fn sleep_slices(duration_secs: u64) -> (slices: u64)
    ensures
        slices == spec_sleep_slices(duration_secs),
{
    if duration_secs <= u64::MAX / 4 {
        duration_secs * 4
    } else {
        u64::MAX
    }
}

/// What a wait does after a slice.
#[derive(Clone, Copy, Debug, PartialEq, Eq, Structural)]
pub enum SleepStep {
    /// The wait is over.
    Done(SleepResult),
    /// The wait goes on for this many slices.
    Again(u64),
}

/// What an event ends a wait with: a request to leave comes before all
/// else, then a new size of the window, then the requests to close or to
/// scroll the command error. Any other event ends nothing.
pub open spec fn spec_interrupts(event: InputEvent) -> Option<SleepResult> {
    if spec_should_quit(event) {
        Some(SleepResult::Quit)
    } else if event == InputEvent::Resize {
        Some(SleepResult::Resize)
    } else if spec_should_close_popup(event) {
        Some(SleepResult::PopupClose)
    } else if spec_is_scroll_up(event) {
        Some(SleepResult::PopupScrollUp)
    } else if spec_is_scroll_down(event) {
        Some(SleepResult::PopupScrollDown)
    } else {
        None
    }
}

/// What an event ends a wait with, if with anything.
pub fn interrupts(event: &InputEvent) -> (result: Option<SleepResult>)
    ensures
        result == spec_interrupts(*event),
{
    if should_quit(event) {
        Some(SleepResult::Quit)
    } else if matches!(event, InputEvent::Resize) {
        Some(SleepResult::Resize)
    } else if should_close_popup(event) {
        Some(SleepResult::PopupClose)
    } else if is_scroll_up(event) {
        Some(SleepResult::PopupScrollUp)
    } else if is_scroll_down(event) {
        Some(SleepResult::PopupScrollDown)
    } else {
        None
    }
}

/// What a wait does after a slice, with `remaining` slices to go before it
/// and the event that the terminal had, if it had one: an event that
/// interrupts ends the wait with its result; without one the wait ends when
/// no slice is left, and goes on with one slice fewer otherwise.
pub open spec fn spec_sleep_step(remaining: u64, event: Option<InputEvent>) -> SleepStep {
    let interrupt = match event {
        Some(event) => spec_interrupts(event),
        None => None,
    };
    match interrupt {
        Some(result) => SleepStep::Done(result),
        None => if remaining <= 1 {
            SleepStep::Done(SleepResult::Continue)
        } else {
            SleepStep::Again((remaining - 1) as u64)
        },
    }
}

/// What a wait does after a slice.
pub fn sleep_step(remaining: u64, event: Option<InputEvent>) -> (step: SleepStep)
    ensures
        step == spec_sleep_step(remaining, event),
{
    let interrupt = match event {
        Some(event) => interrupts(&event),
        None => None,
    };
    match interrupt {
        Some(result) => SleepStep::Done(result),
        None => if remaining <= 1 {
            SleepStep::Done(SleepResult::Continue)
        } else {
            SleepStep::Again(remaining - 1)
        },
    }
}

} // verus!
