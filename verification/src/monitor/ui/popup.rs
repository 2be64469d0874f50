//! What the view of a command error holds.

use crate::monitor::data::label::chars_of;
use crate::monitor::data::text::{blank, is_blank};
use crate::monitor::state::CommandError;
use vstd::prelude::*;

verus! {

/// The parts of a command error that have something to show.
#[derive(Clone, Copy, Debug, PartialEq, Eq, Structural)]
pub struct PopupSections {
    /// The exit code is shown: it is not zero.
    pub exit_code: bool,
    /// The standard output is shown: it holds more than blank space.
    pub stdout: bool,
    /// The standard error is shown: it holds more than blank space.
    pub stderr: bool,
}

/// The parts of `error` that have something to show.
pub open spec fn spec_popup_sections(error: CommandError) -> PopupSections {
    PopupSections {
        exit_code: error.exit_code != 0,
        stdout: !is_blank(error.stdout@),
        stderr: !is_blank(error.stderr@),
    }
}

/// The parts of `error` that have something to show.
pub fn popup_sections(error: &CommandError) -> (sections: PopupSections)
    ensures
        sections == spec_popup_sections(*error),
{
    let stdout = chars_of(error.stdout.as_str());
    let stderr = chars_of(error.stderr.as_str());
    PopupSections {
        exit_code: error.exit_code != 0,
        stdout: !blank(&stdout),
        stderr: !blank(&stderr),
    }
}

} // verus!
