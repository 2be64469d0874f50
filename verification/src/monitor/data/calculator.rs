//! The three derivations that a session makes from each snapshot.

use crate::common::{CephPgDump, InconsistentPgProgress, OsdDataMovement, StatSum};
use crate::monitor::data::movement::{
    copy_movements, movement_updated, same_movements, update_movements,
};
use crate::monitor::data::scrub::{
    copy_records, distinct_groups, progress_after, update_progress, views,
};
use crate::monitor::state::MonitorState;
use std::collections::HashMap;
use vstd::prelude::*;

verus! {

/// Brings the session's records of the storage nodes up to the snapshot
/// `current_data`, and returns a copy of them. Nothing else in the session
/// changes.
pub fn calculate_osd_data_movement(
    current_data: &CephPgDump,
    state: &mut MonitorState,
    interval: u64,
) -> (movements: HashMap<u32, OsdDataMovement>)
    ensures
        movement_updated(
            old(state).movements(),
            *current_data,
            interval as nat,
            final(state).movements(),
        ),
        same_movements(movements@, final(state).movements()),
        final(state).recovery() == old(state).recovery(),
        final(state).progress() == old(state).progress(),
        final(state).popup() == old(state).popup(),
{
    update_movements(state.get_osd_movements_mut(), current_data, interval);
    copy_movements(state.get_osd_movements())
}

/// Brings the session's records of the inconsistent placement groups up to
/// the snapshot `current_data`, and returns a copy of them. No two of the
/// records are about the same group. Nothing else in the session changes.
pub fn calculate_inconsistent_pg_progress(
    current_data: &CephPgDump,
    state: &mut MonitorState,
    interval: u64,
) -> (progress: Vec<InconsistentPgProgress>)
    ensures
        views(final(state).progress()) == progress_after(
            views(old(state).progress()),
            current_data.pg_map.pg_stats@,
            interval as nat,
        ),
        distinct_groups(views(final(state).progress())),
        views(progress@) == views(final(state).progress()),
        final(state).recovery() == old(state).recovery(),
        final(state).movements() == old(state).movements(),
        final(state).popup() == old(state).popup(),
{
    update_progress(
        state.get_inconsistent_pg_progress_mut(),
        &current_data.pg_map.pg_stats,
        interval,
    );
    copy_records(state.get_inconsistent_pg_progress())
}

/// One if `count` is above zero, else nothing.
pub open spec fn one_if_positive(count: i64) -> nat {
    if count > 0 {
        1
    } else {
        0
    }
}

/// How many of the four recovery categories have objects outstanding.
pub open spec fn active_categories(sum: StatSum) -> nat {
    one_if_positive(sum.num_objects_missing) + one_if_positive(sum.num_objects_unfound)
        + one_if_positive(sum.num_objects_misplaced) + one_if_positive(sum.num_objects_degraded)
}

/// The lines that the recovery panel takes: its frame and heading, and a
/// line for each category with objects outstanding.
pub fn calculate_recovery_progress_height(data: &CephPgDump) -> (height: u16)
    ensures
        height == 3 + active_categories(data.pg_map.pg_stats_sum.stat_sum),
{
    let sum = &data.pg_map.pg_stats_sum.stat_sum;
    let mut height: u16 = 3;
    if sum.num_objects_missing > 0 {
        height = height + 1;
    }
    if sum.num_objects_unfound > 0 {
        height = height + 1;
    }
    if sum.num_objects_misplaced > 0 {
        height = height + 1;
    }
    if sum.num_objects_degraded > 0 {
        height = height + 1;
    }
    height
}

} // verus!
