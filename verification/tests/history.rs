use ceph_doctor::monitor::data::history::{record, HISTORY_SIZE};

#[test]
fn history_size_is_twenty() {
    assert_eq!(HISTORY_SIZE, 20);
}

#[test]
fn record_appends_while_there_is_room() {
    let mut series: Vec<i64> = Vec::new();
    record(&mut series, 5, 3);
    assert_eq!(series, vec![5]);
    record(&mut series, 6, 3);
    record(&mut series, 7, 3);
    assert_eq!(series, vec![5, 6, 7]);
}

#[test]
fn record_evicts_the_oldest_of_a_full_window() {
    let mut series: Vec<i64> = vec![1, 2, 3];
    record(&mut series, 4, 3);
    assert_eq!(series, vec![2, 3, 4]);
}

#[test]
fn twenty_first_sample_evicts_exactly_the_oldest() {
    let mut series: Vec<u64> = Vec::new();
    for sample in 1..=20u64 {
        record(&mut series, sample, HISTORY_SIZE);
    }
    assert_eq!(series.len(), 20);
    assert_eq!(series[0], 1);
    record(&mut series, 21, HISTORY_SIZE);
    assert_eq!(series.len(), 20);
    let expected: Vec<u64> = (2..=21).collect();
    assert_eq!(series, expected);
}

#[test]
fn history_never_exceeds_its_capacity() {
    let mut series: Vec<u64> = Vec::new();
    for sample in 0..100u64 {
        record(&mut series, sample, HISTORY_SIZE);
        assert!(series.len() <= HISTORY_SIZE);
    }
    let expected: Vec<u64> = (80..100).collect();
    assert_eq!(series, expected);
}

#[test]
fn record_cuts_an_overlong_series_down_to_capacity() {
    let mut series: Vec<i64> = vec![1, 2, 3, 4, 5];
    record(&mut series, 6, 2);
    assert_eq!(series, vec![5, 6]);
}

#[test]
fn record_into_a_window_without_room_keeps_nothing() {
    let mut series: Vec<i64> = vec![1, 2];
    record(&mut series, 3, 0);
    assert!(series.is_empty());
}
