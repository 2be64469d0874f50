use ceph_doctor::common::{CephPgDump, InconsistentPgProgress, PgStats};
use ceph_doctor::monitor::data::calculator::calculate_inconsistent_pg_progress;
use ceph_doctor::monitor::data::estimator::Rate;
use ceph_doctor::monitor::data::scrub::{copy_record, copy_records, update_progress};
use ceph_doctor::monitor::state::MonitorState;

fn pg(pgid: &str, state: &str, scrubbed: Option<u64>, copies: i64) -> PgStats {
    let mut group = PgStats::default();
    group.pgid = pgid.to_string();
    group.state = state.to_string();
    group.objects_scrubbed = scrubbed;
    group.stat_sum.num_object_copies = copies;
    group.acting = vec![4, 5, 6];
    group.acting_primary = 5;
    group.up = vec![4, 5, 9];
    group.up_primary = 9;
    group
}

fn ids(records: &[InconsistentPgProgress]) -> Vec<String> {
    records.iter().map(|r| r.pgid.clone()).collect()
}

#[test]
fn an_inconsistent_group_gets_a_record() {
    let pgs = vec![
        pg("1.a", "active+clean", Some(10), 100),
        pg("1.b", "active+clean+inconsistent", Some(30), 300),
    ];
    let mut records = Vec::new();
    update_progress(&mut records, &pgs, 5);
    assert_eq!(ids(&records), vec!["1.b"]);
    let r = &records[0];
    assert_eq!(r.num_objects, 300);
    assert_eq!(r.primary_osd, 5);
    assert_eq!(r.up_osds, vec![4, 5, 6]);
    assert_eq!(r.state, "active+clean+inconsistent");
    assert_eq!(r.objects_scrubbed, 30);
    assert_eq!(r.scrubbed_history, vec![30]);
    assert_eq!(r.scrub_rate, None);
    assert_eq!(r.eta_seconds, None);
}

#[test]
fn a_record_holds_the_current_node_set_of_a_group_on_the_move() {
    let mut group = pg("3.7", "active+remapped+inconsistent", Some(1), 10);
    group.up = vec![1, 2, 3];
    group.up_primary = 1;
    group.acting = vec![4, 2, 1];
    group.acting_primary = 4;
    let mut records = Vec::new();
    update_progress(&mut records, &vec![group], 5);
    assert_eq!(records[0].up_osds, vec![4, 2, 1]);
    assert_eq!(records[0].primary_osd, 4);
}

#[test]
fn a_second_record_of_a_group_is_dropped() {
    let mut first = InconsistentPgProgress::default();
    first.pgid = "1.a".to_string();
    first.scrubbed_history = vec![1, 2];
    let mut second = InconsistentPgProgress::default();
    second.pgid = "1.a".to_string();
    second.scrubbed_history = vec![9];
    second.state = "stale".to_string();
    let mut other = InconsistentPgProgress::default();
    other.pgid = "1.b".to_string();
    let mut records = vec![first, other, second];
    update_progress(
        &mut records,
        &vec![pg("1.a", "inconsistent", Some(3), 9), pg("1.b", "inconsistent", Some(4), 9)],
        5,
    );
    assert_eq!(ids(&records), vec!["1.a", "1.b"]);
    assert_eq!(records[0].scrubbed_history, vec![1, 2, 3]);
    assert_eq!(records[0].state, "inconsistent");
    assert_eq!(records[1].scrubbed_history, vec![4]);
}

#[test]
fn a_record_follows_its_group() {
    let mut records = Vec::new();
    update_progress(&mut records, &vec![pg("1.b", "inconsistent", Some(30), 300)], 5);
    let mut later = pg("1.b", "active+inconsistent+repair", Some(50), 310);
    later.acting = vec![7, 8];
    later.acting_primary = 8;
    later.up = vec![7, 3];
    later.up_primary = 3;
    update_progress(&mut records, &vec![later], 5);
    assert_eq!(records.len(), 1);
    let r = &records[0];
    assert_eq!(r.num_objects, 310);
    assert_eq!(r.primary_osd, 8);
    assert_eq!(r.up_osds, vec![7, 8]);
    assert_eq!(r.state, "active+inconsistent+repair");
    assert_eq!(r.objects_scrubbed, 50);
    assert_eq!(r.scrubbed_history, vec![30, 50]);
}

#[test]
fn rate_and_eta_come_with_the_third_sample() {
    let mut records = Vec::new();
    update_progress(&mut records, &vec![pg("1.b", "inconsistent", Some(100), 1000)], 10);
    update_progress(&mut records, &vec![pg("1.b", "inconsistent", Some(120), 1000)], 10);
    assert_eq!(records[0].scrub_rate, None);
    assert_eq!(records[0].eta_seconds, None);
    update_progress(&mut records, &vec![pg("1.b", "inconsistent", Some(140), 1000)], 10);
    // 40 objects in 20 seconds; 860 to go.
    assert_eq!(records[0].scrub_rate, Some(Rate { rising: true, amount: 40, seconds: 20 }));
    assert_eq!(records[0].eta_seconds, Some(430));
    // A count that does not rise over the window projects nothing.
    update_progress(&mut records, &vec![pg("1.b", "inconsistent", Some(100), 1000)], 10);
    assert_eq!(records[0].scrub_rate, None);
    assert_eq!(records[0].eta_seconds, None);
}

#[test]
fn a_scrub_that_has_covered_everything_has_no_eta() {
    let mut records = Vec::new();
    for scrubbed in [10, 20, 30] {
        update_progress(&mut records, &vec![pg("1.b", "inconsistent", Some(scrubbed), 30)], 1);
    }
    assert_eq!(records[0].scrub_rate, Some(Rate { rising: true, amount: 20, seconds: 2 }));
    assert_eq!(records[0].eta_seconds, None);
    let mut empty = Vec::new();
    for scrubbed in [10, 20, 30] {
        update_progress(&mut empty, &vec![pg("1.c", "inconsistent", Some(scrubbed), 0)], 1);
    }
    assert_eq!(empty[0].eta_seconds, None);
    let mut negative = Vec::new();
    for scrubbed in [10, 20, 30] {
        update_progress(&mut negative, &vec![pg("1.d", "inconsistent", Some(scrubbed), -8)], 1);
    }
    assert_eq!(negative[0].num_objects, -8);
    assert_eq!(negative[0].eta_seconds, None);
}

#[test]
fn a_missing_scrub_count_is_zero() {
    let mut records = Vec::new();
    update_progress(&mut records, &vec![pg("1.b", "inconsistent", None, 30)], 1);
    assert_eq!(records[0].objects_scrubbed, 0);
    assert_eq!(records[0].scrubbed_history, vec![0]);
}

#[test]
fn a_record_is_gone_one_poll_after_its_group_is_consistent() {
    let mut records = Vec::new();
    update_progress(
        &mut records,
        &vec![pg("1.a", "inconsistent", Some(1), 9), pg("1.b", "inconsistent", Some(2), 9)],
        5,
    );
    assert_eq!(ids(&records), vec!["1.a", "1.b"]);
    update_progress(
        &mut records,
        &vec![pg("1.a", "active+clean", Some(5), 9), pg("1.b", "inconsistent", Some(3), 9)],
        5,
    );
    assert_eq!(ids(&records), vec!["1.b"]);
    assert_eq!(records[0].scrubbed_history, vec![2, 3]);
    // A group that is no longer in the snapshot at all is gone too.
    update_progress(&mut records, &vec![], 5);
    assert!(records.is_empty());
}

#[test]
fn a_group_that_comes_back_starts_over() {
    let mut records = Vec::new();
    for scrubbed in [10, 20, 30, 40] {
        update_progress(&mut records, &vec![pg("1.a", "inconsistent", Some(scrubbed), 90)], 5);
    }
    assert_eq!(records[0].scrubbed_history, vec![10, 20, 30, 40]);
    assert!(records[0].scrub_rate.is_some());
    update_progress(&mut records, &vec![pg("1.a", "active+clean", Some(50), 90)], 5);
    assert!(records.is_empty());
    update_progress(&mut records, &vec![pg("1.a", "inconsistent", Some(60), 90)], 5);
    assert_eq!(records.len(), 1);
    assert_eq!(records[0].scrubbed_history, vec![60]);
    assert_eq!(records[0].scrub_rate, None);
    assert_eq!(records[0].eta_seconds, None);
}

#[test]
fn a_group_listed_twice_is_sampled_twice() {
    let mut records = Vec::new();
    update_progress(
        &mut records,
        &vec![pg("1.a", "inconsistent", Some(1), 9), pg("1.a", "inconsistent", Some(2), 9)],
        5,
    );
    assert_eq!(records.len(), 1);
    assert_eq!(records[0].scrubbed_history, vec![1, 2]);
    assert_eq!(records[0].objects_scrubbed, 2);
}

#[test]
fn histories_of_scrub_counts_keep_twenty_samples() {
    let mut records = Vec::new();
    for scrubbed in 0..30u64 {
        update_progress(&mut records, &vec![pg("1.a", "inconsistent", Some(scrubbed), 90)], 2);
    }
    let expected: Vec<u64> = (10..30).collect();
    assert_eq!(records[0].scrubbed_history, expected);
    assert_eq!(records[0].scrub_rate, Some(Rate { rising: true, amount: 19, seconds: 38 }));
    // 61 left at one object per two seconds.
    assert_eq!(records[0].eta_seconds, Some(122));
}

#[test]
fn the_session_state_takes_the_progress() {
    let mut data = CephPgDump::default();
    data.pg_map.pg_stats = vec![pg("2.f", "inconsistent", Some(3), 9)];
    let mut state = MonitorState::new();
    let returned = calculate_inconsistent_pg_progress(&data, &mut state, 5);
    assert_eq!(ids(&returned), vec!["2.f"]);
    assert_eq!(ids(state.get_inconsistent_pg_progress()), vec!["2.f"]);
    assert_eq!(returned[0].scrubbed_history, vec![3]);
    assert!(state.get_osd_movements().is_empty());
    data.pg_map.pg_stats = vec![pg("2.f", "active+clean", Some(3), 9)];
    let returned = calculate_inconsistent_pg_progress(&data, &mut state, 5);
    assert!(returned.is_empty());
    assert!(state.get_inconsistent_pg_progress().is_empty());
}

#[test]
fn copies_say_the_same() {
    let mut records = Vec::new();
    for scrubbed in [10, 20, 30] {
        update_progress(&mut records, &vec![pg("1.a", "inconsistent", Some(scrubbed), 90)], 5);
    }
    let one = copy_record(&records[0]);
    assert_eq!(one.pgid, "1.a");
    assert_eq!(one.scrubbed_history, vec![10, 20, 30]);
    assert_eq!(one.scrub_rate, records[0].scrub_rate);
    assert_eq!(one.eta_seconds, records[0].eta_seconds);
    assert_eq!(one.up_osds, vec![4, 5, 6]);
    let all = copy_records(&records);
    assert_eq!(ids(&all), vec!["1.a"]);
    assert_eq!(all[0].state, "inconsistent");
}
