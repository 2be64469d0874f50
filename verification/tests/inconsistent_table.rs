use ceph_doctor::common::InconsistentPgProgress;
use ceph_doctor::monitor::data::estimator::Rate;
use ceph_doctor::monitor::ui::inconsistent_table::{
    inconsistent_pg_order, inconsistent_pg_row, inconsistent_pg_rows, osd_marks, OsdMark,
};

fn record(pgid: &str, copies: i64, scrubbed: u64) -> InconsistentPgProgress {
    let mut r = InconsistentPgProgress::default();
    r.pgid = pgid.to_string();
    r.num_objects = copies;
    r.objects_scrubbed = scrubbed;
    r.up_osds = vec![3, 1, 2];
    r.primary_osd = 1;
    r.state = "active+clean+inconsistent".to_string();
    r
}

#[test]
fn rows_are_ordered_by_group_identifier() {
    let records =
        vec![record("2.1f", 1, 0), record("10.3", 1, 0), record("2.1", 1, 0), record("1.ff", 1, 0)];
    assert_eq!(inconsistent_pg_order(&records), vec![3, 1, 2, 0]);
    let rows = inconsistent_pg_rows(&records);
    let shown: Vec<&str> = rows.iter().map(|r| r.pgid.as_str()).collect();
    assert_eq!(shown, vec!["1.ff", "10.3", "2.1", "2.1f"]);
    assert!(inconsistent_pg_rows(&vec![]).is_empty());
}

#[test]
fn records_of_one_group_keep_their_order() {
    let records = vec![record("b", 1, 0), record("a", 2, 0), record("a", 3, 0)];
    assert_eq!(inconsistent_pg_order(&records), vec![1, 2, 0]);
    let rows = inconsistent_pg_rows(&records);
    assert_eq!(rows[0].objects, "2");
    assert_eq!(rows[1].objects, "3");
}

#[test]
fn the_primary_is_marked() {
    let marks = osd_marks(&record("1.0", 1, 0));
    assert_eq!(
        marks,
        vec![
            OsdMark { osd: 3, primary: false },
            OsdMark { osd: 1, primary: true },
            OsdMark { osd: 2, primary: false },
        ]
    );
}

#[test]
fn a_group_without_object_copies_is_scrubbed_to_zero_percent() {
    assert_eq!(inconsistent_pg_row(&record("1.0", 0, 0)).scrubbed, "0.0%");
    assert_eq!(inconsistent_pg_row(&record("1.0", 0, 55)).scrubbed, "0.0%");
    assert_eq!(inconsistent_pg_row(&record("1.0", -1, 55)).scrubbed, "0.0%");
}

#[test]
fn a_row_shows_its_record_in_words() {
    let mut r = record("3.1a", 2500, 625);
    r.scrub_rate = Some(Rate { rising: true, amount: 25, seconds: 10 });
    r.eta_seconds = Some(750);
    r.state = "active+clean+inconsistent+repair".to_string();
    let row = inconsistent_pg_row(&r);
    assert_eq!(row.pgid, "3.1a");
    assert_eq!(row.objects, "2.5K");
    assert_eq!(row.scrubbed, "25.0%");
    assert_eq!(row.rate, "2.5");
    assert_eq!(row.eta, "12m30s");
    assert!(row.repair);
    assert_eq!(row.osds.len(), 3);
    let plain = inconsistent_pg_row(&record("3.1a", 3, 1));
    assert_eq!(plain.scrubbed, "33.3%");
    assert_eq!(plain.rate, "N/A");
    assert_eq!(plain.eta, "N/A");
    assert!(!plain.repair);
}
