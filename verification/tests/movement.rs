use ceph_doctor::common::{CephPgDump, OsdDataMovement, OsdStats, PgStats};
use ceph_doctor::monitor::data::calculator::{
    calculate_osd_data_movement, calculate_recovery_progress_height,
};
use ceph_doctor::monitor::data::estimator::Rate;
use ceph_doctor::monitor::data::movement::{
    copy_movements, fresh_movement, keys_of, node_set, update_movements,
};
use ceph_doctor::monitor::state::MonitorState;
use std::collections::HashMap;

fn pg(pgid: &str, state: &str, up: &[u32], acting: &[u32], misplaced: i64) -> PgStats {
    let mut group = PgStats::default();
    group.pgid = pgid.to_string();
    group.state = state.to_string();
    group.up = up.to_vec();
    group.acting = acting.to_vec();
    group.stat_sum.num_objects_misplaced = misplaced;
    group
}

fn dump(pgs: Vec<PgStats>, osds: &[u32]) -> CephPgDump {
    let mut data = CephPgDump::default();
    data.pg_map.pg_stats = pgs;
    for osd in osds {
        let mut stats = OsdStats::default();
        stats.osd = *osd;
        data.pg_map.osd_stats.push(stats);
    }
    data
}

fn node(movements: &HashMap<u32, OsdDataMovement>, osd: u32) -> &OsdDataMovement {
    match movements.get(&osd) {
        Some(m) => m,
        None => panic!("node {osd} has no record"),
    }
}

fn ids(movements: &HashMap<u32, OsdDataMovement>) -> Vec<u32> {
    let mut ids: Vec<u32> = movements.keys().copied().collect();
    ids.sort();
    ids
}

#[test]
fn missing_is_target_without_current_and_excess_the_reverse() {
    let data = dump(vec![pg("1.0", "active+remapped+backfilling", &[1, 2, 3], &[1, 2, 4], 100)], &[]);
    let mut movements = HashMap::new();
    update_movements(&mut movements, &data, 5);
    assert_eq!(ids(&movements), vec![3, 4]);
    let three = node(&movements, 3);
    assert_eq!(three.missing_objects, 100);
    assert_eq!(three.incoming_objects, 100);
    assert_eq!(three.missing_objects_active, 100);
    assert_eq!(three.missing_objects_waiting, 0);
    assert_eq!(three.excess_objects, 0);
    assert_eq!(three.outgoing_objects, 0);
    let four = node(&movements, 4);
    assert_eq!(four.excess_objects, 100);
    assert_eq!(four.outgoing_objects, 100);
    assert_eq!(four.excess_objects_active, 100);
    assert_eq!(four.excess_objects_waiting, 0);
    assert_eq!(four.missing_objects, 0);
    assert_eq!(four.incoming_objects, 0);
}

#[test]
fn polling_the_same_snapshot_twice_gives_the_same_totals() {
    let data = dump(
        vec![
            pg("1.0", "active+remapped+backfilling", &[1, 2, 3], &[1, 2, 4], 100),
            pg("1.1", "active+remapped+backfill_wait", &[3, 5], &[4, 5], 40),
            pg("1.2", "active+clean", &[1, 2], &[1, 2], 0),
        ],
        &[1, 2, 3, 4, 5],
    );
    let mut movements = HashMap::new();
    update_movements(&mut movements, &data, 5);
    let once = copy_movements(&movements);
    update_movements(&mut movements, &data, 5);
    assert_eq!(ids(&movements), ids(&once));
    for id in ids(&once) {
        let a = node(&once, id);
        let b = node(&movements, id);
        assert_eq!(a.osd_id, b.osd_id);
        assert_eq!(a.missing_objects, b.missing_objects);
        assert_eq!(a.excess_objects, b.excess_objects);
        assert_eq!(a.missing_objects_active, b.missing_objects_active);
        assert_eq!(a.missing_objects_waiting, b.missing_objects_waiting);
        assert_eq!(a.excess_objects_active, b.excess_objects_active);
        assert_eq!(a.excess_objects_waiting, b.excess_objects_waiting);
        assert_eq!(a.incoming_objects, b.incoming_objects);
        assert_eq!(a.outgoing_objects, b.outgoing_objects);
    }
    assert_eq!(node(&movements, 3).missing_objects, 140);
    assert_eq!(node(&movements, 3).missing_objects_history, vec![140, 140]);
    assert_eq!(node(&movements, 4).excess_objects, 140);
}

#[test]
fn groups_are_active_waiting_or_neither() {
    let data = dump(
        vec![
            pg("1.0", "active+remapped+backfilling", &[1], &[2], 10),
            pg("1.1", "active+recovering", &[1], &[2], 20),
            pg("1.2", "active+remapped+backfill_wait", &[1], &[2], 300),
            pg("1.3", "active+remapped", &[1], &[2], 4000),
            pg("1.4", "backfill_wait+backfilling", &[1], &[2], 50000),
        ],
        &[],
    );
    let mut movements = HashMap::new();
    update_movements(&mut movements, &data, 5);
    let one = node(&movements, 1);
    assert_eq!(one.missing_objects, 54330);
    assert_eq!(one.missing_objects_active, 50030);
    assert_eq!(one.missing_objects_waiting, 300);
    assert_eq!(one.excess_objects, 0);
    let two = node(&movements, 2);
    assert_eq!(two.excess_objects, 54330);
    assert_eq!(two.excess_objects_active, 50030);
    assert_eq!(two.excess_objects_waiting, 300);
    assert_eq!(two.missing_objects, 0);
}

#[test]
fn groups_without_misplaced_objects_move_nothing() {
    let data = dump(
        vec![
            pg("1.0", "active+remapped+backfilling", &[1], &[2], 0),
            pg("1.1", "active+remapped+backfilling", &[3], &[4], -5),
        ],
        &[],
    );
    let mut movements = HashMap::new();
    update_movements(&mut movements, &data, 5);
    assert!(movements.is_empty());
}

#[test]
fn a_node_named_twice_in_a_set_counts_once() {
    let data = dump(vec![pg("1.0", "backfilling", &[7, 7, 8], &[9, 9, 8, 9], 10)], &[]);
    let mut movements = HashMap::new();
    update_movements(&mut movements, &data, 5);
    assert_eq!(ids(&movements), vec![7, 9]);
    assert_eq!(node(&movements, 7).missing_objects, 10);
    assert_eq!(node(&movements, 9).excess_objects, 10);
}

#[test]
fn empty_node_sets_change_nothing() {
    let data = dump(vec![pg("1.0", "backfilling", &[], &[], 10)], &[]);
    let mut movements = HashMap::new();
    update_movements(&mut movements, &data, 5);
    assert!(movements.is_empty());
}

#[test]
fn listed_nodes_get_a_record_and_keep_their_history_while_idle() {
    let idle = dump(vec![], &[5, 6]);
    let mut movements = HashMap::new();
    update_movements(&mut movements, &idle, 5);
    assert_eq!(ids(&movements), vec![5, 6]);
    assert_eq!(node(&movements, 5).missing_objects_history, vec![0]);
    assert_eq!(node(&movements, 5).excess_objects_history, vec![0]);
    let busy = dump(vec![pg("1.0", "backfilling", &[5], &[6], 10)], &[]);
    update_movements(&mut movements, &busy, 5);
    update_movements(&mut movements, &idle, 5);
    assert_eq!(ids(&movements), vec![5, 6]);
    assert_eq!(node(&movements, 5).missing_objects_history, vec![0, 10, 0]);
    assert_eq!(node(&movements, 6).excess_objects_history, vec![0, 10, 0]);
    assert_eq!(node(&movements, 5).missing_objects, 0);
    assert_eq!(node(&movements, 5).missing_objects_active, 0);
}

#[test]
fn counts_are_made_anew_each_poll() {
    let mut movements = HashMap::new();
    update_movements(
        &mut movements,
        &dump(vec![pg("1.0", "backfilling", &[1], &[2], 10)], &[]),
        5,
    );
    update_movements(
        &mut movements,
        &dump(vec![pg("1.0", "backfill_wait", &[2], &[1], 3)], &[]),
        5,
    );
    let one = node(&movements, 1);
    assert_eq!(one.missing_objects, 0);
    assert_eq!(one.missing_objects_active, 0);
    assert_eq!(one.excess_objects, 3);
    assert_eq!(one.excess_objects_waiting, 3);
    assert_eq!(one.excess_objects_active, 0);
    assert_eq!(one.missing_objects_history, vec![10, 0]);
    assert_eq!(one.excess_objects_history, vec![0, 3]);
}

#[test]
fn rate_and_eta_need_three_samples_and_an_active_transfer() {
    let mut movements = HashMap::new();
    let step = |movements: &mut HashMap<u32, OsdDataMovement>, state: &str, misplaced: i64| {
        update_movements(movements, &dump(vec![pg("1.0", state, &[1], &[2], misplaced)], &[]), 5);
    };
    step(&mut movements, "backfilling", 300);
    assert_eq!(node(&movements, 1).incoming_rate, None);
    assert_eq!(node(&movements, 1).incoming_predicted_time_secs, None);
    step(&mut movements, "backfilling", 200);
    assert_eq!(node(&movements, 1).incoming_rate, None);
    assert_eq!(node(&movements, 1).incoming_predicted_time_secs, None);
    step(&mut movements, "backfilling", 100);
    // 200 objects in 10 seconds; 100 left.
    let expected = Rate { rising: false, amount: 200, seconds: 10 };
    assert_eq!(node(&movements, 1).incoming_rate, Some(expected));
    assert_eq!(node(&movements, 1).incoming_predicted_time_secs, Some(5));
    assert_eq!(node(&movements, 2).outgoing_rate, Some(expected));
    assert_eq!(node(&movements, 2).outgoing_predicted_time_secs, Some(5));
    assert_eq!(node(&movements, 1).outgoing_rate, None);
    assert_eq!(node(&movements, 1).outgoing_predicted_time_secs, None);
    // Queued only: nothing is projected.
    step(&mut movements, "backfill_wait", 50);
    assert_eq!(node(&movements, 1).incoming_rate, None);
    assert_eq!(node(&movements, 1).incoming_predicted_time_secs, None);
    // Active again, but rising over the window: nothing either.
    step(&mut movements, "backfilling", 400);
    assert_eq!(node(&movements, 1).incoming_rate, None);
    assert_eq!(node(&movements, 1).incoming_predicted_time_secs, None);
}

#[test]
fn histories_keep_the_newest_twenty_totals() {
    let mut movements = HashMap::new();
    for round in 0..25i64 {
        let data = dump(vec![pg("1.0", "backfilling", &[1], &[2], 1000 - round)], &[]);
        update_movements(&mut movements, &data, 1);
    }
    let expected: Vec<i64> = (5..25).map(|round| 1000 - round).collect();
    assert_eq!(node(&movements, 1).missing_objects_history, expected);
    assert_eq!(node(&movements, 2).excess_objects_history, expected);
    assert_eq!(
        node(&movements, 1).incoming_rate,
        Some(Rate { rising: false, amount: 19, seconds: 19 })
    );
    assert_eq!(node(&movements, 1).incoming_predicted_time_secs, Some(976));
}

#[test]
fn totals_are_held_at_the_largest_value() {
    let data = dump(
        vec![
            pg("1.0", "backfilling", &[1], &[2], i64::MAX),
            pg("1.1", "backfilling", &[1], &[2], i64::MAX),
            pg("1.2", "backfill_wait", &[1], &[2], 1),
        ],
        &[],
    );
    let mut movements = HashMap::new();
    update_movements(&mut movements, &data, 5);
    let one = node(&movements, 1);
    assert_eq!(one.missing_objects, i64::MAX);
    assert_eq!(one.missing_objects_active, i64::MAX);
    assert_eq!(one.missing_objects_waiting, 1);
}

#[test]
fn a_record_is_counted_by_the_node_it_is_kept_under() {
    let mut kept = fresh_movement(99);
    kept.missing_objects_history = vec![1, 2];
    let mut movements = HashMap::new();
    movements.insert(7, kept);
    update_movements(
        &mut movements,
        &dump(vec![pg("1.0", "backfilling", &[7], &[8], 10)], &[]),
        5,
    );
    assert_eq!(ids(&movements), vec![7, 8]);
    assert_eq!(node(&movements, 7).osd_id, 99);
    assert_eq!(node(&movements, 7).missing_objects, 10);
    assert_eq!(node(&movements, 7).missing_objects_history, vec![1, 2, 10]);
    assert_eq!(node(&movements, 8).osd_id, 8);
    assert_eq!(node(&movements, 8).excess_objects, 10);
}

#[test]
fn the_session_state_takes_the_records() {
    let data = dump(vec![pg("1.0", "backfilling", &[1], &[2], 10)], &[3]);
    let mut state = MonitorState::new();
    let returned = calculate_osd_data_movement(&data, &mut state, 5);
    assert_eq!(ids(&returned), vec![1, 2, 3]);
    assert_eq!(ids(state.get_osd_movements()), vec![1, 2, 3]);
    assert_eq!(node(state.get_osd_movements(), 1).missing_objects, 10);
    assert_eq!(node(&returned, 1).missing_objects, 10);
    assert_eq!(node(&returned, 1).missing_objects_history, vec![10]);
    assert!(state.get_inconsistent_pg_progress().is_empty());
    assert!(state.get_recovery_history("Missing").is_none());
}

#[test]
fn fresh_records_are_empty() {
    let m = fresh_movement(4);
    assert_eq!(m.osd_id, 4);
    assert_eq!(m.missing_objects, 0);
    assert_eq!(m.excess_objects, 0);
    assert!(m.missing_objects_history.is_empty());
    assert!(m.excess_objects_history.is_empty());
    assert_eq!(m.incoming_rate, None);
    assert_eq!(m.outgoing_predicted_time_secs, None);
}

#[test]
fn a_node_set_holds_each_node_once() {
    let set = node_set(&vec![3, 1, 3, 2, 1]);
    assert_eq!(set.len(), 3);
    assert!(set.contains(&1) && set.contains(&2) && set.contains(&3));
    assert!(!set.contains(&4));
    assert!(node_set(&vec![]).is_empty());
}

#[test]
fn keys_name_every_node_once() {
    let mut movements = HashMap::new();
    assert!(keys_of(&movements).is_empty());
    movements.insert(5, fresh_movement(5));
    movements.insert(6, fresh_movement(6));
    movements.insert(5, fresh_movement(5));
    let mut keys = keys_of(&movements);
    keys.sort();
    assert_eq!(keys, vec![5, 6]);
}

#[test]
fn a_copy_says_the_same() {
    let mut movements = HashMap::new();
    update_movements(
        &mut movements,
        &dump(vec![pg("1.0", "backfilling", &[1], &[2], 10)], &[3]),
        5,
    );
    let copy = copy_movements(&movements);
    assert_eq!(ids(&copy), vec![1, 2, 3]);
    assert_eq!(node(&copy, 1).missing_objects, 10);
    assert_eq!(node(&copy, 1).missing_objects_history, vec![10]);
    assert_eq!(node(&copy, 2).excess_objects_active, 10);
    assert_eq!(node(&copy, 3).missing_objects_history, vec![0]);
}

#[test]
fn recovery_panel_has_a_line_for_each_active_category() {
    let mut data = dump(vec![], &[]);
    assert_eq!(calculate_recovery_progress_height(&data), 3);
    data.pg_map.pg_stats_sum.stat_sum.num_objects_misplaced = 5;
    assert_eq!(calculate_recovery_progress_height(&data), 4);
    data.pg_map.pg_stats_sum.stat_sum.num_objects_missing = 1;
    data.pg_map.pg_stats_sum.stat_sum.num_objects_unfound = -1;
    data.pg_map.pg_stats_sum.stat_sum.num_objects_degraded = 2;
    assert_eq!(calculate_recovery_progress_height(&data), 6);
    data.pg_map.pg_stats_sum.stat_sum.num_objects_unfound = 9;
    assert_eq!(calculate_recovery_progress_height(&data), 7);
}
