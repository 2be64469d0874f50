//! One monitoring session: what it knows, and what it does when a key is
//! pressed, a snapshot arrives or a wait ends.
//!
//! The session decides; the caller acts. The caller reads the terminal,
//! runs the command and waits, hands each outcome to the session, and does
//! what the session answers: leave, draw the screen again, or nothing.

use crate::common::{CephPgDump, OsdDataMovement};
use crate::monitor::data::movement::{movement_updated, update_movements};
use crate::monitor::data::label::chars_of;
use crate::monitor::data::scrub::{distinct_groups, progress_after, update_progress, views};
use crate::monitor::data::text::{has_prefix, starts_with};
use crate::monitor::fetch::{command_error_mark, parse_command_error, tells};
use crate::monitor::state::{distinct_categories, scrolled, CommandError, MonitorState};
use crate::monitor::terminal::{
    is_scroll_down, is_scroll_up, should_close_popup, should_quit, spec_is_scroll_down,
    spec_is_scroll_up, spec_should_close_popup, spec_should_quit, InputEvent, SleepResult,
};
use crate::monitor::ui::recovery::{recovery_progress_rows, rows_after, sampled, RecoveryRow};
use vstd::prelude::*;
use vstd::string::StrSliceExecFns;

verus! {

/// What the caller does next.
#[derive(Clone, Copy, Debug, PartialEq, Eq, Structural)]
pub enum Action {
    /// Leave the session.
    Quit,
    /// Draw the screen again.
    Redraw,
    /// Go on.
    Nothing,
}

/// What the screen shows under a command error, if one is on show.
#[derive(Clone, Copy, Debug, PartialEq, Eq, Structural)]
pub enum Screen {
    /// No snapshot has arrived yet, and nothing has failed.
    Loading,
    /// No snapshot has arrived yet, and the last fetch failed.
    Failure,
    /// The panels of the last snapshot, under an error banner where the
    /// last fetch failed.
    Main,
}

/// A monitoring session.
pub struct Session {
    state: MonitorState,
    interval: u64,
    last_data: Option<CephPgDump>,
    error_message: Option<String>,
    recovery_rows: Vec<RecoveryRow>,
}

/// The command error after a request to scroll up.
pub open spec fn scrolled_up(popup: Option<CommandError>) -> Option<CommandError> {
    match popup {
        Some(error) => Some(
            scrolled(
                error,
                if error.scroll_offset == 0 {
                    0
                } else {
                    (error.scroll_offset - 1) as u16
                },
            ),
        ),
        None => None,
    }
}

/// The command error after a request to scroll down.
pub open spec fn scrolled_down(popup: Option<CommandError>) -> Option<CommandError> {
    match popup {
        Some(error) => Some(
            scrolled(
                error,
                if error.scroll_offset == u16::MAX {
                    u16::MAX
                } else {
                    (error.scroll_offset + 1) as u16
                },
            ),
        ),
        None => None,
    }
}

/// The command error on show after an event: a request to leave changes
/// nothing; while an error is on show, a request to close it takes it off,
/// and a request to scroll moves its view.
pub open spec fn popup_after_event(popup: Option<CommandError>, event: InputEvent) -> Option<
    CommandError,
> {
    if spec_should_quit(event) || popup is None {
        popup
    } else if spec_should_close_popup(event) {
        None
    } else if spec_is_scroll_up(event) {
        scrolled_up(popup)
    } else if spec_is_scroll_down(event) {
        scrolled_down(popup)
    } else {
        popup
    }
}

/// What the caller does after an event: leave on a request to leave; draw
/// again when the window has a new size, or when a command error on show
/// was closed or scrolled; nothing otherwise.
pub open spec fn action_after_event(popup_shown: bool, event: InputEvent) -> Action {
    if spec_should_quit(event) {
        Action::Quit
    } else if popup_shown && (spec_should_close_popup(event) || spec_is_scroll_up(event)
        || spec_is_scroll_down(event)) {
        Action::Redraw
    } else if event == InputEvent::Resize {
        Action::Redraw
    } else {
        Action::Nothing
    }
}

/// The command error on show after a wait.
pub open spec fn popup_after_sleep(popup: Option<CommandError>, result: SleepResult) -> Option<
    CommandError,
> {
    match result {
        SleepResult::PopupClose => None,
        SleepResult::PopupScrollUp => scrolled_up(popup),
        SleepResult::PopupScrollDown => scrolled_down(popup),
        _ => popup,
    }
}

/// What the caller does after a wait: leave where the user asked to, go on
/// to the next poll where the time is up, and draw again in every other
/// case.
pub open spec fn action_after_sleep(result: SleepResult) -> Action {
    match result {
        SleepResult::Quit => Action::Quit,
        SleepResult::Continue => Action::Nothing,
        _ => Action::Redraw,
    }
}

/// What follows the mark in the line of a failed run.
pub open spec fn after_mark(message: Seq<char>) -> Seq<char> {
    message.subrange(command_error_mark().len() as int, message.len() as int)
}

/// Whether a failure is that of a run of the command, told in a line that
/// can be read back.
pub open spec fn is_command_error(message: Seq<char>) -> bool {
    has_prefix(message, command_error_mark()) && crate::monitor::data::text::field(
        after_mark(message),
        '|',
        3,
    ) is Some
}

/// Whether the command error on show is the one that the line `message`
/// tells of.
pub open spec fn on_show(popup: Option<CommandError>, message: Seq<char>) -> bool {
    match popup {
        Some(error) => tells(after_mark(message), error),
        None => false,
    }
}

impl Session {
    /// What the session carries from poll to poll.
    pub closed spec fn spec_state(self) -> MonitorState {
        self.state
    }

    /// The seconds between two polls.
    pub closed spec fn spec_interval(self) -> u64 {
        self.interval
    }

    /// The last snapshot that arrived.
    pub closed spec fn spec_last_data(self) -> Option<CephPgDump> {
        self.last_data
    }

    /// What the last fetch failed with, unless it is on show as a command
    /// error.
    pub closed spec fn spec_error_message(self) -> Option<String> {
        self.error_message
    }

    /// The lines of the recovery table, as of the last snapshot.
    pub closed spec fn spec_recovery_rows(self) -> Seq<RecoveryRow> {
        self.recovery_rows@
    }

    /// A session that polls every `interval` seconds and has seen nothing
    /// yet.
    pub fn new(interval: u64) -> (session: Session)
        ensures
            session.spec_interval() == interval,
            session.spec_last_data() is None,
            session.spec_error_message() is None,
            session.spec_recovery_rows() == Seq::<RecoveryRow>::empty(),
            session.spec_state().popup() is None,
            session.spec_state().movements() == Map::<u32, OsdDataMovement>::empty(),
            session.spec_state().progress().len() == 0,
            session.spec_state().recovery().len() == 0,
    {
        Session {
            state: MonitorState::new(),
            interval,
            last_data: None,
            error_message: None,
            recovery_rows: Vec::new(),
        }
    }

    /// What the session carries from poll to poll.
    pub fn state(&self) -> (state: &MonitorState)
        ensures
            *state == self.spec_state(),
    {
        &self.state
    }

    /// The seconds between two polls.
    pub fn interval(&self) -> (interval: u64)
        ensures
            interval == self.spec_interval(),
    {
        self.interval
    }

    /// The last snapshot that arrived.
    pub fn last_data(&self) -> (data: Option<&CephPgDump>)
        ensures
            match data {
                Some(data) => self.spec_last_data() == Some(*data),
                None => self.spec_last_data() is None,
            },
    {
        self.last_data.as_ref()
    }

    /// What the last fetch failed with, unless it is on show as a command
    /// error.
    pub fn error_message(&self) -> (message: Option<&String>)
        ensures
            match message {
                Some(message) => self.spec_error_message() == Some(*message),
                None => self.spec_error_message() is None,
            },
    {
        self.error_message.as_ref()
    }

    /// The lines of the recovery table, as of the last snapshot.
    pub fn recovery_rows(&self) -> (rows: &Vec<RecoveryRow>)
        ensures
            rows@ == self.spec_recovery_rows(),
    {
        &self.recovery_rows
    }

    /// What the screen shows: the panels once a snapshot has arrived, the
    /// failure while none has and the last fetch failed, and the loading
    /// notice before that.
    pub fn screen(&self) -> (screen: Screen)
        ensures
            screen == if self.spec_last_data() is Some {
                Screen::Main
            } else if self.spec_error_message() is Some {
                Screen::Failure
            } else {
                Screen::Loading
            },
    {
        if self.last_data.is_some() {
            Screen::Main
        } else if self.error_message.is_some() {
            Screen::Failure
        } else {
            Screen::Loading
        }
    }

    /// Whether the next poll fetches a snapshot: not while a command error
    /// is on show.
    pub fn wants_fetch(&self) -> (fetch: bool)
        ensures
            fetch == self.spec_state().popup() is None,
    {
        !self.state.has_command_error_popup()
    }

    /// Takes in what the terminal reports. Only the command error on show
    /// can change.
    pub fn on_event(&mut self, event: &InputEvent) -> (action: Action)
        ensures
            action == action_after_event(old(self).spec_state().popup() is Some, *event),
            final(self).spec_state().popup() == popup_after_event(
                old(self).spec_state().popup(),
                *event,
            ),
            final(self).spec_state().recovery() == old(self).spec_state().recovery(),
            final(self).spec_state().movements() == old(self).spec_state().movements(),
            final(self).spec_state().progress() == old(self).spec_state().progress(),
            final(self).spec_interval() == old(self).spec_interval(),
            final(self).spec_last_data() == old(self).spec_last_data(),
            final(self).spec_error_message() == old(self).spec_error_message(),
            final(self).spec_recovery_rows() == old(self).spec_recovery_rows(),
    {
        if should_quit(event) {
            return Action::Quit;
        }
        if self.state.has_command_error_popup() {
            if should_close_popup(event) {
                self.state.clear_command_error_popup();
                Action::Redraw
            } else if is_scroll_up(event) {
                self.state.scroll_popup_up();
                Action::Redraw
            } else if is_scroll_down(event) {
                self.state.scroll_popup_down();
                Action::Redraw
            } else if matches!(event, InputEvent::Resize) {
                Action::Redraw
            } else {
                Action::Nothing
            }
        } else if matches!(event, InputEvent::Resize) {
            Action::Redraw
        } else {
            Action::Nothing
        }
    }

    /// Takes in how a wait ended. Only the command error on show can
    /// change.
    pub fn on_slept(&mut self, result: SleepResult) -> (action: Action)
        ensures
            action == action_after_sleep(result),
            final(self).spec_state().popup() == popup_after_sleep(
                old(self).spec_state().popup(),
                result,
            ),
            final(self).spec_state().recovery() == old(self).spec_state().recovery(),
            final(self).spec_state().movements() == old(self).spec_state().movements(),
            final(self).spec_state().progress() == old(self).spec_state().progress(),
            final(self).spec_interval() == old(self).spec_interval(),
            final(self).spec_last_data() == old(self).spec_last_data(),
            final(self).spec_error_message() == old(self).spec_error_message(),
            final(self).spec_recovery_rows() == old(self).spec_recovery_rows(),
    {
        match result {
            SleepResult::Quit => Action::Quit,
            SleepResult::Continue => Action::Nothing,
            SleepResult::Resize => Action::Redraw,
            SleepResult::PopupClose => {
                self.state.clear_command_error_popup();
                Action::Redraw
            },
            SleepResult::PopupScrollUp => {
                self.state.scroll_popup_up();
                Action::Redraw
            },
            SleepResult::PopupScrollDown => {
                self.state.scroll_popup_down();
                Action::Redraw
            },
        }
    }

    /// Takes in a snapshot: it becomes the last snapshot, the failure of an
    /// earlier fetch is forgotten, and the snapshot goes once into the
    /// samples of the recovery categories, once into the records of the
    /// inconsistent placement groups and once into the records of the
    /// storage nodes. The screen is to be drawn again.
    pub fn on_snapshot(&mut self, data: CephPgDump) -> (action: Action)
        ensures
            action == Action::Redraw,
            final(self).spec_last_data() == Some(data),
            final(self).spec_error_message() is None,
            final(self).spec_interval() == old(self).spec_interval(),
            final(self).spec_recovery_rows() == rows_after(
                old(self).spec_state().recovery(),
                data.pg_map.pg_stats_sum.stat_sum,
                old(self).spec_interval() as nat,
            ),
            sampled(
                old(self).spec_state().recovery(),
                data.pg_map.pg_stats_sum.stat_sum,
                final(self).spec_state().recovery(),
            ),
            distinct_categories(old(self).spec_state().recovery()) ==> distinct_categories(
                final(self).spec_state().recovery(),
            ),
            views(final(self).spec_state().progress()) == progress_after(
                views(old(self).spec_state().progress()),
                data.pg_map.pg_stats@,
                old(self).spec_interval() as nat,
            ),
            distinct_groups(views(final(self).spec_state().progress())),
            movement_updated(
                old(self).spec_state().movements(),
                data,
                old(self).spec_interval() as nat,
                final(self).spec_state().movements(),
            ),
            final(self).spec_state().popup() == old(self).spec_state().popup(),
    {
        let rows = recovery_progress_rows(&data, &mut self.state, self.interval);
        update_progress(
            self.state.get_inconsistent_pg_progress_mut(),
            &data.pg_map.pg_stats,
            self.interval,
        );
        update_movements(self.state.get_osd_movements_mut(), &data, self.interval);
        self.recovery_rows = rows;
        self.last_data = Some(data);
        self.error_message = None;
        Action::Redraw
    }

    /// Takes in the failure of a fetch. The failed run of the command, told
    /// in a line that can be read back, goes on show as a command error,
    /// and no failure is told beside it; any other failure is told as it
    /// is. Nothing that was derived from earlier snapshots changes. The
    /// screen is to be drawn again.
    pub fn on_failure(&mut self, message: String) -> (action: Action)
        ensures
            action == Action::Redraw,
            is_command_error(message@) ==> final(self).spec_error_message() is None && on_show(
                final(self).spec_state().popup(),
                message@,
            ),
            !is_command_error(message@) ==> final(self).spec_error_message() == Some(message)
                && final(self).spec_state().popup() == old(self).spec_state().popup(),
            final(self).spec_state().recovery() == old(self).spec_state().recovery(),
            final(self).spec_state().movements() == old(self).spec_state().movements(),
            final(self).spec_state().progress() == old(self).spec_state().progress(),
            final(self).spec_interval() == old(self).spec_interval(),
            final(self).spec_last_data() == old(self).spec_last_data(),
            final(self).spec_recovery_rows() == old(self).spec_recovery_rows(),
    {
        let chars = chars_of(message.as_str());
        let mark = chars_of("CommandError:");
        if starts_with(&chars, &mark) {
            let rest = message.as_str().substring_char(mark.len(), chars.len());
            match parse_command_error(rest) {
                Ok(error) => {
                    self.state.set_command_error_popup(error);
                    self.error_message = None;
                    return Action::Redraw;
                },
                Err(_) => {},
            }
        }
        self.error_message = Some(message);
        Action::Redraw
    }

    /// Takes in the outcome of a fetch: a snapshot, or the failure told in
    /// words.
    pub fn on_fetched(&mut self, outcome: Result<CephPgDump, String>) -> (action: Action)
        ensures
            action == Action::Redraw,
            final(self).spec_interval() == old(self).spec_interval(),
            match outcome {
                Ok(data) => {
                    &&& final(self).spec_last_data() == Some(data)
                    &&& final(self).spec_error_message() is None
                    &&& final(self).spec_recovery_rows() == rows_after(
                        old(self).spec_state().recovery(),
                        data.pg_map.pg_stats_sum.stat_sum,
                        old(self).spec_interval() as nat,
                    )
                    &&& sampled(
                        old(self).spec_state().recovery(),
                        data.pg_map.pg_stats_sum.stat_sum,
                        final(self).spec_state().recovery(),
                    )
                    &&& distinct_categories(old(self).spec_state().recovery())
                        ==> distinct_categories(final(self).spec_state().recovery())
                    &&& views(final(self).spec_state().progress()) == progress_after(
                        views(old(self).spec_state().progress()),
                        data.pg_map.pg_stats@,
                        old(self).spec_interval() as nat,
                    )
                    &&& distinct_groups(views(final(self).spec_state().progress()))
                    &&& movement_updated(
                        old(self).spec_state().movements(),
                        data,
                        old(self).spec_interval() as nat,
                        final(self).spec_state().movements(),
                    )
                    &&& final(self).spec_state().popup() == old(self).spec_state().popup()
                },
                Err(message) => {
                    &&& is_command_error(message@) ==> final(self).spec_error_message() is None
                        && on_show(final(self).spec_state().popup(), message@)
                    &&& !is_command_error(message@) ==> final(self).spec_error_message() == Some(
                        message,
                    ) && final(self).spec_state().popup() == old(self).spec_state().popup()
                    &&& final(self).spec_state().recovery() == old(self).spec_state().recovery()
                    &&& final(self).spec_state().movements() == old(self).spec_state().movements()
                    &&& final(self).spec_state().progress() == old(self).spec_state().progress()
                    &&& final(self).spec_last_data() == old(self).spec_last_data()
                    &&& final(self).spec_recovery_rows() == old(self).spec_recovery_rows()
                },
            },
    {
        match outcome {
            Ok(data) => self.on_snapshot(data),
            Err(message) => self.on_failure(message),
        }
    }
}

} // verus!
