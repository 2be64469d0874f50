//! How the screen is divided among the panels.

use crate::common::CephPgDump;
use crate::monitor::data::calculator::{active_categories, calculate_recovery_progress_height};
use crate::monitor::ui::pg_table::{count_unique_pg_states, distinct_states, SHOWN_STATES};
use vstd::prelude::*;

verus! {

/// The lines that the header takes.
pub const HEADER_HEIGHT: u16 = 3;

/// The lines that the footer takes.
pub const FOOTER_HEIGHT: u16 = 3;

/// The lines that an error banner takes.
pub const ERROR_HEIGHT: u16 = 3;

/// The lines that a table of `lines` lines takes with its frame and
/// heading: three more than it has lines, but four at least and fifteen at
/// most.
pub open spec fn spec_table_height(lines: nat) -> u16 {
    if lines + 3 < 4 {
        4
    } else if lines + 3 > 15 {
        15
    } else {
        (lines + 3) as u16
    }
}

/// The lines that a table of `lines` lines takes with its frame and
/// heading.
pub fn table_height(lines: usize) -> (height: u16)
    ensures
        height == spec_table_height(lines as nat),
{
    if lines < 1 {
        4
    } else if lines > 12 {
        15
    } else {
        (lines + 3) as u16
    }
}

/// The heights of the panels between header and footer. The table of
/// storage nodes takes what is left below them.
#[derive(Clone, Copy, Debug, PartialEq, Eq, Structural)]
pub struct ContentLayout {
    /// The lines of the recovery panel.
    pub recovery_height: u16,
    /// The lines of the list of states.
    pub pg_states_height: u16,
    /// The lines of the table of inconsistent groups; none where no group is
    /// inconsistent, and the table is left out.
    pub inconsistent_height: Option<u16>,
}

impl ContentLayout {
    /// The place of the table of storage nodes among the panels, counted
    /// from zero.
    pub open spec fn spec_osd_index(self) -> usize {
        if self.inconsistent_height is Some {
            3
        } else {
            2
        }
    }

    /// The place of the table of storage nodes among the panels.
    #[verifier::when_used_as_spec(spec_osd_index)]
    pub fn osd_index(self) -> (index: usize)
        ensures
            index == self.spec_osd_index(),
    {
        if self.inconsistent_height.is_some() {
            3
        } else {
            2
        }
    }
}

/// The number of states that the list shows.
pub open spec fn shown_states(data: CephPgDump) -> nat {
    if distinct_states(data.pg_map.pg_stats@).len() < SHOWN_STATES {
        distinct_states(data.pg_map.pg_stats@).len()
    } else {
        SHOWN_STATES as nat
    }
}

/// The heights of the panels for a snapshot in which `inconsistent` groups
/// are inconsistent.
pub fn content_layout(data: &CephPgDump, inconsistent: usize) -> (layout: ContentLayout)
    ensures
        layout.recovery_height == 3 + active_categories(data.pg_map.pg_stats_sum.stat_sum),
        layout.pg_states_height == spec_table_height(shown_states(*data)),
        layout.inconsistent_height == if inconsistent == 0 {
            None
        } else {
            Some(spec_table_height(inconsistent as nat))
        },
{
    ContentLayout {
        recovery_height: calculate_recovery_progress_height(data),
        pg_states_height: table_height(count_unique_pg_states(&data.pg_map.pg_stats)),
        inconsistent_height: if inconsistent == 0 {
            None
        } else {
            Some(table_height(inconsistent))
        },
    }
}

/// A rectangle on the screen.
#[derive(Clone, Copy, Debug, PartialEq, Eq, Structural)]
pub struct Area {
    pub x: u16,
    pub y: u16,
    pub width: u16,
    pub height: u16,
}

/// The rectangle of the command error on a screen of `width` columns and
/// `height` lines: 85 hundredths of the width and 80 hundredths of the
/// height, each rounded down, in the middle of the screen.
pub open spec fn spec_popup_area(width: u16, height: u16) -> Area {
    let popup_width = (width * 85 / 100) as u16;
    let popup_height = (height * 80 / 100) as u16;
    Area {
        x: ((width - popup_width) / 2) as u16,
        y: ((height - popup_height) / 2) as u16,
        width: popup_width,
        height: popup_height,
    }
}

/// The rectangle of the command error on a screen of `width` columns and
/// `height` lines.
pub fn popup_area(width: u16, height: u16) -> (area: Area)
    ensures
        area == spec_popup_area(width, height),
{
    let popup_width: u16 = ((width as u32) * 85 / 100) as u16;
    let popup_height: u16 = ((height as u32) * 80 / 100) as u16;
    Area {
        x: (width - popup_width) / 2,
        y: (height - popup_height) / 2,
        width: popup_width,
        height: popup_height,
    }
}

} // verus!
